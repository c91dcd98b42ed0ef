//! The registry of live run-time schemas.
use crate::introspect::TypeVariant;
use std::collections::HashMap;
use std::marker::PhantomData;
use std::sync::Arc;
use vstd::prelude::*;

verus! {

/// The types of a run-time schema, by node ID.
pub type TypeTable = HashMap<u64, TypeVariant>;

#[verifier::external_type_specification]
#[verifier::external_body]
#[verifier::reject_recursive_types(K)]
#[verifier::reject_recursive_types(V)]
#[verifier::reject_recursive_types(S)]
pub struct ExConcurrentMap<K, V, S>(flurry::HashMap<K, V, S>);

#[verifier::external_type_specification]
#[verifier::external_body]
pub struct ExConcurrentMapHasher(flurry::DefaultHashBuilder);

/// What a concurrent map of type tables holds.
pub uninterp spec fn tables(
    map: flurry::HashMap<u64, Arc<HashMap<u64, TypeVariant>>, flurry::DefaultHashBuilder>,
) -> Map<u64, Map<u64, TypeVariant>>;

/// `flurry::HashMap::new`: an empty map.
#[verifier::external_body]
fn map_new() -> (r: flurry::HashMap<u64, Arc<TypeTable>>)
    ensures
        tables(r).dom() == Set::<u64>::empty(),
{
    flurry::HashMap::new()
}

/// `flurry::HashMapRef::insert`: binds the key to the value, in place of what
/// it was bound to before, and leaves every other key alone.
#[verifier::external_body]
fn map_insert(map: &mut flurry::HashMap<u64, Arc<TypeTable>>, key: u64, value: Arc<TypeTable>)
    ensures
        tables(*final(map)) == tables(*old(map)).insert(key, (*value)@),
{
    map.pin().insert(key, value);
}

/// `flurry::HashMapRef::get`: the value that the key is bound to, if it is
/// bound.
#[verifier::external_body]
fn map_get(map: &flurry::HashMap<u64, Arc<TypeTable>>, key: u64) -> (r: Option<Arc<TypeTable>>)
    ensures
        match r {
            Some(t) => tables(*map).contains_key(key) && (*t)@ == tables(*map)[key],
            None => !tables(*map).contains_key(key),
        },
{
    map.pin().get(&key).cloned()
}

/// `flurry::HashMapRef::remove`: unbinds the key, and leaves every other key
/// alone.
#[verifier::external_body]
fn map_remove(map: &mut flurry::HashMap<u64, Arc<TypeTable>>, key: u64)
    ensures
        tables(*final(map)) == tables(*old(map)).remove(key),
{
    map.pin().remove(&key);
}

/// Names a run-time schema for as long as it lives.
#[derive(Copy, Clone, Debug, Eq, PartialEq, Hash, Ord, PartialOrd)]
pub struct DynamicSchemaToken(u64);

/// The type tables of the live run-time schemas, each under its token, and the
/// next token to give out.
pub struct DynamicSchemaRegistry {
    schemas: flurry::HashMap<u64, Arc<TypeTable>>,
    next: u64,
}

impl DynamicSchemaToken {
    /// The number of the token.
    pub closed spec fn number(self) -> u64 {
        self.0
    }

    /// A token that was never given out before.
    pub(crate) fn new(registry: &mut DynamicSchemaRegistry) -> (r: Self)
        requires
            old(registry).wf(),
            old(registry).next_number() < u64::MAX,
        ensures
            final(registry).wf(),
            r.number() == old(registry).next_number(),
            final(registry).next_number() == old(registry).next_number() + 1,
            final(registry)@ == old(registry)@,
            !old(registry)@.contains_key(r.number()),
    {
        let count: u64 = registry.next;
        registry.next = count + 1;
        assert(registry@ == old(registry)@);
        DynamicSchemaToken(count)
    }

    /// Lends the type table of the schema that the token names, as long as that
    /// schema lives. The registry stays borrowed as long as the table is lent,
    /// so that no schema ends its life while its table is in use.
    pub fn try_as_ref<'a>(&self, registry: &'a DynamicSchemaRegistry) -> (r: Option<TableRef<'a>>)
        ensures
            match r {
                Some(t) => registry@.contains_key(self.number()) && t@ == registry@[self.number()],
                None => !registry@.contains_key(self.number()),
            },
    {
        match registry.get(self) {
            Some(table) => Some(TableRef { table, registry: PhantomData }),
            None => None,
        }
    }
}

/// A type table that a registry lends.
pub struct TableRef<'a> {
    table: Arc<TypeTable>,
    registry: PhantomData<&'a DynamicSchemaRegistry>,
}

impl<'a> View for TableRef<'a> {
    type V = Map<u64, TypeVariant>;

    closed spec fn view(&self) -> Map<u64, TypeVariant> {
        (*self.table)@
    }
}

impl<'a> TableRef<'a> {
    /// The table.
    pub fn as_ref(&self) -> (r: &TypeTable)
        ensures
            r@ == self@,
    {
        &self.table
    }
}

impl View for DynamicSchemaRegistry {
    type V = Map<u64, Map<u64, TypeVariant>>;

    closed spec fn view(&self) -> Map<u64, Map<u64, TypeVariant>> {
        tables(self.schemas)
    }
}

impl DynamicSchemaRegistry {
    /// The number that the next token gets.
    pub closed spec fn next_number(self) -> u64 {
        self.next
    }

    /// Only tokens that were given out are bound.
    pub open spec fn wf(self) -> bool {
        forall|k: u64| #[trigger] self@.contains_key(k) ==> k < self.next_number()
    }

    /// An empty registry.
    pub fn new() -> (r: Self)
        ensures
            r.wf(),
            r.next_number() == 0,
            r@ == Map::<u64, Map<u64, TypeVariant>>::empty(),
    {
        DynamicSchemaRegistry { schemas: map_new(), next: 0 }
    }

    /// Whether another token can be given out.
    pub fn has_room(&self) -> (r: bool)
        ensures
            r == (self.next_number() < u64::MAX),
    {
        self.next < u64::MAX
    }

    pub(crate) fn insert(&mut self, token: DynamicSchemaToken, schema: Arc<TypeTable>)
        ensures
            final(self)@ == old(self)@.insert(token.number(), (*schema)@),
            final(self).next_number() == old(self).next_number(),
    {
        map_insert(&mut self.schemas, token.0, schema);
    }

    pub(crate) fn get(&self, token: &DynamicSchemaToken) -> (r: Option<Arc<TypeTable>>)
        ensures
            match r {
                Some(t) => self@.contains_key(token.number()) && (*t)@ == self@[token.number()],
                None => !self@.contains_key(token.number()),
            },
    {
        map_get(&self.schemas, token.0)
    }

    pub(crate) fn remove(&mut self, token: &DynamicSchemaToken)
        ensures
            final(self)@ == old(self)@.remove(token.number()),
            final(self).next_number() == old(self).next_number(),
    {
        map_remove(&mut self.schemas, token.0);
    }
}

/// Whether one operation leads from one registry to the other: a schema was
/// built, or not built after all, or a schema ended its life.
pub open spec fn is_step(before: DynamicSchemaRegistry, after: DynamicSchemaRegistry) -> bool {
    ||| {
        &&& after.next_number() == before.next_number() + 1
        &&& after@ == before@ || exists|types: Map<u64, TypeVariant>|
            after@ == #[trigger] before@.insert(before.next_number(), types)
    }
    ||| {
        &&& after.next_number() == before.next_number()
        &&& exists|number: u64| after@ == #[trigger] before@.remove(number)
    }
}

/// Whether a sequence of registries is one registry's course.
pub open spec fn is_course(course: Seq<DynamicSchemaRegistry>) -> bool {
    forall|i: int| 0 <= i < course.len() - 1 ==> is_step(#[trigger] course[i], course[i + 1])
}

/// A token names one schema only. Once it names nothing, it names nothing for
/// good; until then it names what it named at first.
pub proof fn law_tokens_are_not_reused(
    course: Seq<DynamicSchemaRegistry>,
    token: DynamicSchemaToken,
    i: int,
)
    requires
        is_course(course),
        0 <= i < course.len(),
        token.number() < course[0].next_number(),
    ensures
        token.number() < course[i].next_number(),
        course[i]@.contains_key(token.number()) ==> forall|k: int|
            0 <= k <= i ==> (#[trigger] course[k])@.contains_key(token.number())
                && course[k]@[token.number()] == course[i]@[token.number()],
    decreases i,
{
    if i > 0 {
        law_tokens_are_not_reused(course, token, i - 1);
        assert(is_step(course[i - 1], course[i - 1 + 1]));
    }
}

/// A token that is given out is a new one, and every registry stays well formed
/// along its course.
pub proof fn law_tokens_are_fresh(course: Seq<DynamicSchemaRegistry>, i: int)
    requires
        is_course(course),
        0 <= i < course.len(),
        course[0].wf(),
    ensures
        course[i].wf(),
        !course[i]@.contains_key(course[i].next_number()),
    decreases i,
{
    if i > 0 {
        law_tokens_are_fresh(course, i - 1);
        assert(is_step(course[i - 1], course[i - 1 + 1]));
    }
}

} // verus!
