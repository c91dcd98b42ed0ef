//! Schemas that are built at run time from a code generator request.
use crate::error::{bare, read, Error, ErrorKind, ErrorView};
use crate::introspect::TypeVariant;
use crate::registry::{is_step, DynamicSchemaRegistry, DynamicSchemaToken, TypeTable};
use crate::schema::nodes::{declares, node_declared, node_outcome, process_node, Stop};
use crate::schema::parents::{
    adopt_interfaces, collect_nodes, declared_parents, files_linked, interfaces_adopted,
    imports_linked, link_files, methods_adopted, nodes_by_id, Links,
};
use crate::schema::scopes::Scopes;
use crate::schema_capnp::code_generator_request::{Import, Message, RequestedFile};
use crate::schema_capnp::node;
use crate::struct_list;
use std::collections::HashMap;
use std::sync::Arc;
use vstd::prelude::*;

verus! {

/// Type information built at run time, from which struct schemas can be made.
pub struct DynamicSchema {
    msg: Message,
    scopes: Scopes,
    node_parents: HashMap<u64, u64>,
    nodes: Arc<TypeTable>,
    token: DynamicSchemaToken,
    root: u64,
}

/// What a request says: the parents of its nodes, the names that they declare,
/// the nodes that declare a type, and the node at the root of all.
pub struct SchemaModel {
    pub parents: Map<u64, u64>,
    pub scopes: Map<(u64, Seq<char>), u64>,
    pub declaring: Map<u64, Arc<node::Reader>>,
    pub root: u64,
}

/// The root among the first `n` nodes: the one without a parent, or 0 as long
/// as there is none. `None` where there is more than one.
pub open spec fn root_among(
    nodes: Seq<Arc<node::Reader>>,
    parents: Map<u64, u64>,
    n: int,
) -> Option<u64>
    decreases n,
{
    if n <= 0 {
        Some(0)
    } else {
        match root_among(nodes, parents, n - 1) {
            None => None,
            Some(root) => if parents[nodes[n - 1].id] != 0 {
                Some(root)
            } else if root == 0 {
                Some(nodes[n - 1].id)
            } else {
                None
            },
        }
    }
}

/// The first reason among the first `n` nodes why the request gives no schema.
pub open spec fn first_stop(
    nodes: Seq<Arc<node::Reader>>,
    parents: Map<u64, u64>,
    n: int,
) -> Option<Stop<ErrorView>>
    decreases n,
{
    if n <= 0 {
        None
    } else {
        match first_stop(nodes, parents, n - 1) {
            Some(s) => Some(s),
            None => if root_among(nodes, parents, n) is None {
                Some(Stop::Error(bare(ErrorKind::MessageIsTooDeeplyNestedOrContainsCycles)))
            } else {
                match node_outcome(*nodes_by_id(nodes, nodes.len() as int)[nodes[n - 1].id]) {
                    Ok(_) => None,
                    Err(s) => Some(s),
                }
            },
        }
    }
}

/// The names that the first `n` nodes declare, on top of `scopes`.
pub open spec fn nodes_declared(
    scopes: Map<(u64, Seq<char>), u64>,
    nodes: Seq<Arc<node::Reader>>,
    n: int,
) -> Map<(u64, Seq<char>), u64>
    decreases n,
{
    if n <= 0 {
        scopes
    } else {
        let id = nodes[n - 1].id;
        node_declared(
            nodes_declared(scopes, nodes, n - 1),
            id,
            *nodes_by_id(nodes, nodes.len() as int)[id],
        )
    }
}

/// Whether a node declares a type.
pub open spec fn is_declaring(node: node::Reader) -> bool {
    node_outcome(node) == Ok::<bool, Stop<ErrorView>>(true)
}

/// The nodes that declare a type, by ID.
pub open spec fn declaring_nodes(nodes: Seq<Arc<node::Reader>>) -> Map<u64, Arc<node::Reader>> {
    let by_id = nodes_by_id(nodes, nodes.len() as int);
    Map::new(|id: u64| by_id.contains_key(id) && is_declaring(*by_id[id]), |id: u64| by_id[id])
}

/// What a message says, or why it gives no schema.
pub open spec fn schema_outcome(msg: Message) -> Result<SchemaModel, Stop<ErrorView>> {
    match msg.root {
        Err(e) => Err(Stop::Error(e@)),
        Ok(request) => match request.nodes {
            Err(e) => Err(Stop::Error(e@)),
            Ok(nodes) => {
                let n = nodes@.len() as int;
                match interfaces_adopted(declared_parents(nodes@, n), nodes@, n) {
                    Err(e) => Err(Stop::Error(e)),
                    Ok(parents) => match request.requested_files {
                        Err(e) => Err(Stop::Error(e@)),
                        Ok(files) => match files_linked(
                            Links { parents, scopes: Map::empty() },
                            files@,
                            files@.len() as int,
                        ) {
                            Err(e) => Err(Stop::Error(e)),
                            Ok(links) => match first_stop(nodes@, links.parents, n) {
                                Some(s) => Err(s),
                                None => Ok(
                                    SchemaModel {
                                        parents: links.parents,
                                        scopes: nodes_declared(links.scopes, nodes@, n),
                                        declaring: declaring_nodes(nodes@),
                                        root: root_among(nodes@, links.parents, n)->Some_0,
                                    },
                                ),
                            },
                        },
                    },
                }
            },
        },
    }
}

/// The node that a path of names leads to from node `from`, if every name on
/// the way is declared.
pub open spec fn resolve(
    scopes: Map<(u64, Seq<char>), u64>,
    from: u64,
    path: Seq<Seq<char>>,
) -> Option<u64>
    decreases path.len(),
{
    if path.len() == 0 {
        Some(from)
    } else if scopes.contains_key((from, path[0])) {
        resolve(scopes, scopes[(from, path[0])], path.drop_first())
    } else {
        None
    }
}

/// Every node's ID is among the nodes by ID.
proof fn lemma_node_by_id(nodes: Seq<Arc<node::Reader>>, i: int, n: int)
    requires
        0 <= i < n <= nodes.len(),
    ensures
        nodes_by_id(nodes, n).contains_key(nodes[i].id),
        declared_parents(nodes, n).contains_key(nodes[i].id),
    decreases n,
{
    if i < n - 1 {
        lemma_node_by_id(nodes, i, n - 1);
    }
}

/// The first reason among some nodes is the first one among more.
proof fn lemma_first_stop(
    nodes: Seq<Arc<node::Reader>>,
    parents: Map<u64, u64>,
    i: int,
    n: int,
)
    requires
        0 <= i <= n,
        first_stop(nodes, parents, i) is Some,
    ensures
        first_stop(nodes, parents, n) == first_stop(nodes, parents, i),
    decreases n - i,
{
    if i < n {
        lemma_first_stop(nodes, parents, i + 1, n);
    }
}

/// Whether a type table holds what the given nodes declare, each type under its
/// node's ID.
pub open spec fn table_declares(
    table: Map<u64, TypeVariant>,
    declaring: Map<u64, Arc<node::Reader>>,
    token: DynamicSchemaToken,
) -> bool {
    &&& table.dom() == declaring.dom()
    &&& forall|id: u64| #[trigger]
        table.contains_key(id) ==> declares(declaring[id], table[id], token)
}

/// The nodes among the first `n` IDs that declare a type.
spec fn declaring_among(nodes: Seq<Arc<node::Reader>>, n: int) -> Map<u64, Arc<node::Reader>> {
    let by_id = nodes_by_id(nodes, nodes.len() as int);
    Map::new(
        |id: u64| nodes_by_id(nodes, n).contains_key(id) && is_declaring(*by_id[id]),
        |id: u64| by_id[id],
    )
}

/// Finds the root, and adds what every node declares.
fn process_nodes(
    nodes: &struct_list::Reader<Arc<node::Reader>>,
    node_map: &HashMap<u64, Arc<node::Reader>>,
    node_parents: &HashMap<u64, u64>,
    scopes: &mut Scopes,
    token: DynamicSchemaToken,
) -> (r: Result<(TypeTable, u64), Stop<Error>>)
    requires
        node_map@ == nodes_by_id(nodes@, nodes@.len() as int),
        forall|i: int| 0 <= i < nodes@.len() ==> node_parents@.contains_key(#[trigger] nodes@[i].id),
    ensures
        match r {
            Ok((table, root)) => {
                &&& first_stop(nodes@, node_parents@, nodes@.len() as int) is None
                &&& root_among(nodes@, node_parents@, nodes@.len() as int) == Some(root)
                &&& table_declares(table@, declaring_nodes(nodes@), token)
                &&& final(scopes)@ == nodes_declared(old(scopes)@, nodes@, nodes@.len() as int)
            },
            Err(s) => first_stop(nodes@, node_parents@, nodes@.len() as int) == Some(s.reason()),
        },
{
    let mut table: TypeTable = HashMap::new();
    let mut root: u64 = 0;
    let count: u32 = nodes.len();
    let mut i: u32 = 0;
    assert(table@.dom() =~= declaring_among(nodes@, 0).dom());
    while i < count
        invariant
            count == nodes@.len(),
            0 <= i <= count,
            node_map@ == nodes_by_id(nodes@, nodes@.len() as int),
            forall|j: int|
                0 <= j < nodes@.len() ==> node_parents@.contains_key(#[trigger] nodes@[j].id),
            first_stop(nodes@, node_parents@, i as int) is None,
            root_among(nodes@, node_parents@, i as int) == Some(root),
            table_declares(table@, declaring_among(nodes@, i as int), token),
            scopes@ == nodes_declared(old(scopes)@, nodes@, i as int),
        decreases count - i,
    {
        let id: u64 = nodes.get(i).id;
        proof {
            lemma_node_by_id(nodes@, i as int, count as int);
            assert(node_parents@.contains_key(nodes@[i as int].id));
        }
        let parent: u64 = match node_parents.get(&id) {
            Some(p) => *p,
            None => 0,
        };
        if parent == 0 {
            if root != 0 {
                proof {
                    lemma_first_stop(nodes@, node_parents@, i + 1, count as int);
                }
                return Err(
                    Stop::Error(
                        Error::from_kind(ErrorKind::MessageIsTooDeeplyNestedOrContainsCycles),
                    ),
                );
            }
            root = id;
        }
        let ghost before = table@;
        match process_node(&mut table, id, scopes, node_map, token) {
            Ok(_) => {},
            Err(s) => {
                proof {
                    lemma_first_stop(nodes@, node_parents@, i + 1, count as int);
                }
                return Err(s);
            },
        }
        proof {
            let now = declaring_among(nodes@, i + 1);
            let then = declaring_among(nodes@, i as int);
            assert(table@.dom() =~= now.dom());
            assert forall|k: u64| #[trigger] table@.contains_key(k) implies declares(
                now[k],
                table@[k],
                token,
            ) by {
                if k != id {
                    assert(before.contains_key(k));
                }
            }
        }
        i += 1;
    }
    assert(declaring_among(nodes@, count as int) =~= declaring_nodes(nodes@));
    Ok((table, root))
}

/// Adoption gives no new node a parent and takes none away.
proof fn lemma_methods_keep_nodes(
    parents: Map<u64, u64>,
    methods: Seq<node::Method>,
    n: int,
    interface: u64,
)
    ensures
        methods_adopted(parents, methods, n, interface).dom() == parents.dom(),
    decreases n,
{
    if n > 0 {
        lemma_methods_keep_nodes(parents, methods, n - 1, interface);
        assert(methods_adopted(parents, methods, n, interface).dom() =~= parents.dom());
    }
}

proof fn lemma_interfaces_keep_nodes(
    parents: Map<u64, u64>,
    nodes: Seq<Arc<node::Reader>>,
    n: int,
)
    ensures
        interfaces_adopted(parents, nodes, n) matches Ok(p) ==> p.dom() == parents.dom(),
    decreases n,
{
    if n > 0 {
        lemma_interfaces_keep_nodes(parents, nodes, n - 1);
        if let Ok(before) = interfaces_adopted(parents, nodes, n - 1) {
            if let Ok(node::Which::Interface(interface)) = nodes[n - 1].which {
                if let Ok(methods) = interface.methods {
                    lemma_methods_keep_nodes(
                        before,
                        methods@,
                        methods@.len() as int,
                        nodes[n - 1].id,
                    );
                }
            }
        }
    }
}

proof fn lemma_imports_keep_nodes(links: Links, file: u64, imports: Seq<Import>, n: int)
    ensures
        imports_linked(links, file, imports, n) matches Ok(l) ==> l.parents.dom()
            == links.parents.dom(),
    decreases n,
{
    if n > 0 {
        lemma_imports_keep_nodes(links, file, imports, n - 1);
        if let Ok(l) = imports_linked(links, file, imports, n) {
            assert(l.parents.dom() =~= links.parents.dom());
        }
    }
}

proof fn lemma_files_keep_nodes(links: Links, files: Seq<RequestedFile>, n: int)
    ensures
        files_linked(links, files, n) matches Ok(l) ==> l.parents.dom() == links.parents.dom(),
    decreases n,
{
    if n > 0 {
        lemma_files_keep_nodes(links, files, n - 1);
        if let Ok(before) = files_linked(links, files, n - 1) {
            if let Ok(imports) = files[n - 1].imports {
                lemma_imports_keep_nodes(
                    before,
                    files[n - 1].id,
                    imports@,
                    imports@.len() as int,
                );
            }
        }
    }
}

impl DynamicSchema {
    /// The types of the schema, by node ID.
    pub closed spec fn types(self) -> Map<u64, TypeVariant> {
        self.nodes@
    }

    /// The names that the schema's nodes declare.
    pub closed spec fn scopes(self) -> Map<(u64, Seq<char>), u64> {
        self.scopes@
    }

    /// The parents of the schema's nodes.
    pub closed spec fn parents(self) -> Map<u64, u64> {
        self.node_parents@
    }

    /// The node at the root of all others.
    pub closed spec fn root(self) -> u64 {
        self.root
    }

    /// The token that names the schema.
    pub closed spec fn token(self) -> DynamicSchemaToken {
        self.token
    }

    /// Whether the schema is the one that `model` describes.
    pub open spec fn is_schema_of(self, model: SchemaModel) -> bool {
        &&& self.parents() == model.parents
        &&& self.scopes() == model.scopes
        &&& self.root() == model.root
        &&& table_declares(self.types(), model.declaring, self.token())
    }

    /// Builds the schema that a message describes and registers it.
    pub fn build(msg: Message, registry: &mut DynamicSchemaRegistry) -> (r: Result<
        Self,
        Stop<Error>,
    >)
        requires
            old(registry).wf(),
            old(registry).next_number() < u64::MAX,
        ensures
            final(registry).wf(),
            is_step(*old(registry), *final(registry)),
            final(registry).next_number() == old(registry).next_number() + 1,
            match schema_outcome(msg) {
                Ok(model) => {
                    &&& r matches Ok(schema)
                    &&& schema.is_schema_of(model)
                    &&& schema.token().number() == old(registry).next_number()
                    &&& final(registry)@ == old(registry)@.insert(
                        schema.token().number(),
                        schema.types(),
                    )
                },
                Err(s) => {
                    &&& r matches Err(stop)
                    &&& stop.reason() == s
                    &&& final(registry)@ == old(registry)@
                },
            },
    {
        let token = DynamicSchemaToken::new(registry);
        let mut scopes = Scopes::new();
        let request = match read(&msg.root) {
            Ok(request) => request,
            Err(e) => return Err(Stop::Error(e)),
        };
        let nodes = match read(&request.nodes) {
            Ok(nodes) => nodes,
            Err(e) => return Err(Stop::Error(e)),
        };
        let (node_map, mut node_parents) = collect_nodes(nodes);
        let ghost declared = node_parents@;
        match adopt_interfaces(&mut node_parents, nodes) {
            Ok(_) => {},
            Err(e) => return Err(Stop::Error(e)),
        }
        let ghost after_interfaces = node_parents@;
        let files = match read(&request.requested_files) {
            Ok(files) => files,
            Err(e) => return Err(Stop::Error(e)),
        };
        let ghost links = Links { parents: node_parents@, scopes: scopes@ };
        match link_files(&mut node_parents, &mut scopes, files) {
            Ok(_) => {},
            Err(e) => return Err(Stop::Error(e)),
        }
        proof {
            let n = nodes@.len() as int;
            lemma_interfaces_keep_nodes(declared, nodes@, n);
            lemma_files_keep_nodes(links, files@, files@.len() as int);
            assert(node_parents@.dom() == declared.dom());
            assert forall|i: int| 0 <= i < nodes@.len() implies node_parents@.contains_key(
                #[trigger] nodes@[i].id,
            ) by {
                lemma_node_by_id(nodes@, i, n);
                assert(declared.dom().contains(nodes@[i].id));
            }
        }
        let (table, root) = match process_nodes(
            nodes,
            &node_map,
            &node_parents,
            &mut scopes,
            token,
        ) {
            Ok(result) => result,
            Err(s) => return Err(s),
        };
        let table = Arc::new(table);
        registry.insert(token, table.clone());
        Ok(DynamicSchema { msg, scopes, node_parents, nodes: table, token, root })
    }

    /// Builds the schema that a message describes and registers it. The message
    /// holds nothing that run-time schemas do not cover.
    pub fn new(msg: Message, registry: &mut DynamicSchemaRegistry) -> (r: Result<Self, Error>)
        requires
            old(registry).wf(),
            old(registry).next_number() < u64::MAX,
            schema_outcome(msg) != Err::<SchemaModel, Stop<ErrorView>>(Stop::Unsupported),
        ensures
            final(registry).wf(),
            is_step(*old(registry), *final(registry)),
            final(registry).next_number() == old(registry).next_number() + 1,
            match r {
                Ok(schema) => {
                    &&& schema_outcome(msg) matches Ok(model)
                    &&& schema.is_schema_of(model)
                    &&& schema.token().number() == old(registry).next_number()
                    &&& final(registry)@ == old(registry)@.insert(
                        schema.token().number(),
                        schema.types(),
                    )
                },
                Err(e) => {
                    &&& schema_outcome(msg) == Err::<SchemaModel, Stop<ErrorView>>(Stop::Error(e@))
                    &&& final(registry)@ == old(registry)@
                },
            },
    {
        match Self::build(msg, registry) {
            Ok(schema) => Ok(schema),
            Err(Stop::Error(e)) => Err(e),
            Err(Stop::Unsupported) => {
                assert(false);
                Err(Error::from_kind(ErrorKind::Unimplemented))
            },
        }
    }

    /// The type that the node with the given ID declares.
    pub fn get_type_by_id(&self, id: u64) -> (r: Option<&TypeVariant>)
        ensures
            match r {
                Some(ty) => self.types().contains_key(id) && *ty == self.types()[id],
                None => !self.types().contains_key(id),
            },
    {
        self.nodes.get(&id)
    }

    /// The type of the node that a path of names leads to from the root.
    pub fn get_type_by_scope(&self, scope: Vec<String>) -> (r: Option<&TypeVariant>)
        ensures
            ({
                let path = scope@.map_values(|s: String| s@);
                match r {
                    Some(ty) => {
                        &&& path.len() > 0
                        &&& resolve(self.scopes(), self.root(), path) matches Some(id)
                        &&& self.types().contains_key(id)
                        &&& *ty == self.types()[id]
                    },
                    None => path.len() == 0 || match resolve(self.scopes(), self.root(), path) {
                        Some(id) => !self.types().contains_key(id),
                        None => true,
                    },
                }
            }),
    {
        let ghost path = scope@.map_values(|s: String| s@);
        let mut parent: u64 = self.root;
        let mut result: Option<u64> = None;
        let mut i: usize = 0;
        assert(path.skip(0) =~= path);
        while i < scope.len()
            invariant
                0 <= i <= scope@.len(),
                path == scope@.map_values(|s: String| s@),
                resolve(self.scopes(), self.root(), path) == resolve(
                    self.scopes(),
                    parent,
                    path.skip(i as int),
                ),
                i == 0 ==> result is None,
                i > 0 ==> result == Some(parent),
            decreases scope@.len() - i,
        {
            result = self.scopes.get(parent, scope[i].as_str());
            assert(path.skip(i as int)[0] == scope@[i as int]@);
            match result {
                Some(x) => {
                    parent = x;
                },
                None => {
                    return None;
                },
            }
            assert(path.skip(i as int).drop_first() =~= path.skip(i + 1));
            i += 1;
        }
        match result {
            Some(k) => self.nodes.get(&k),
            None => None,
        }
    }

    /// The token that names the schema as long as it lives.
    pub fn get_token(&self) -> (r: DynamicSchemaToken)
        ensures
            r == self.token(),
    {
        self.token
    }

    /// Ends the schema's life in the registry that it lives in: its token names
    /// nothing from here on. No table is lent by the registry at that moment,
    /// since the registry is not borrowed.
    pub fn drop(self, registry: &mut DynamicSchemaRegistry)
        requires
            old(registry).wf(),
            old(registry)@.contains_key(self.token().number()),
            old(registry)@[self.token().number()] == self.types(),
        ensures
            final(registry).wf(),
            is_step(*old(registry), *final(registry)),
            final(registry).next_number() == old(registry).next_number(),
            final(registry)@ == old(registry)@.remove(self.token().number()),
    {
        registry.remove(&self.token);
    }
}

} // verus!
