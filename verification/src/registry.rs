use vstd::prelude::*;

use rustc_hash::FxHashMap;

verus! {

/// Backing table of the type-tag registry. The verifier sees its contents
/// only through `tag_entries` and the trusted wrappers below.
#[verifier::external_body]
pub struct TagTable {
    map: FxHashMap<(u64, String), u64>,
}

/// The entries of a registry table: for each (trait-object type id, variant
/// name) key, the concrete type id registered to decode that variant.
pub uninterp spec fn tag_entries(t: TagTable) -> Map<(u64, Seq<char>), u64>;

/// The contents of a registry with nothing registered.
pub open spec fn no_tags() -> Map<(u64, Seq<char>), u64> {
    Map::empty()
}

/// Relies on rustc_hash's `FxHashMap::default` (a std `HashMap` with the Fx
/// hasher): a freshly built map is empty.
#[verifier::external_body]
fn table_new() -> (t: TagTable)
    ensures
        tag_entries(t) == no_tags(),
{
    TagTable { map: FxHashMap::default() }
}

/// Relies on std `HashMap::insert` through rustc_hash's `FxHashMap`: inserting
/// under a (trait id, name) key stores the value there, overwriting any
/// earlier entry under the same key and leaving every other key alone.
#[verifier::external_body]
fn table_insert(t: &mut TagTable, trait_id: u64, tag: &str, concrete: u64)
    ensures
        tag_entries(*final(t)) == tag_entries(*old(t)).insert((trait_id, tag@), concrete),
{
    t.map.insert((trait_id, tag.to_owned()), concrete);
}

/// Relies on std `HashMap::get` through rustc_hash's `FxHashMap`: returns the
/// value stored under the (trait id, name) key, if any.
#[verifier::external_body]
fn table_get(t: &TagTable, trait_id: u64, tag: &str) -> (r: Option<u64>)
    ensures
        tag_entries(*t).dom().contains((trait_id, tag@)) ==> r == Some(
            tag_entries(*t)[(trait_id, tag@)],
        ),
        !tag_entries(*t).dom().contains((trait_id, tag@)) ==> r is None,
{
    t.map.get(&(trait_id, tag.to_owned())).copied()
}

/// Relies on std `HashMap::clear` through rustc_hash's `FxHashMap`: afterwards
/// the map holds nothing.
#[verifier::external_body]
fn table_clear(t: &mut TagTable)
    ensures
        tag_entries(*final(t)) == no_tags(),
{
    t.map.clear();
}

/// The type-tag registry: a table from (trait-object type id, variant name)
/// to the concrete type id registered for that variant, consulted when a
/// tagged document is decoded. It lives beside the store, is mutated only by
/// explicit `register` calls, and must not be mutated while a scope holding
/// it is active — a caller discipline, not checked at runtime.
pub struct TypeTagServer {
    pub table: TagTable,
}

impl TypeTagServer {
    pub open spec fn entries(self) -> Map<(u64, Seq<char>), u64> {
        tag_entries(self.table)
    }

    pub fn new() -> (s: TypeTagServer)
        ensures
            s.entries() == no_tags(),
    {
        TypeTagServer { table: table_new() }
    }

    /// Installs `concrete` as the decoder for variant `tag` of the trait-object
    /// type `trait_id`. Registering a duplicate name overwrites silently: the
    /// last writer wins.
    pub fn register(&mut self, trait_id: u64, tag: &str, concrete: u64)
        ensures
            final(self).entries() == old(self).entries().insert((trait_id, tag@), concrete),
    {
        table_insert(&mut self.table, trait_id, tag, concrete)
    }

    /// Resolves a variant name against the registry.
    pub fn get(&self, trait_id: u64, tag: &str) -> (r: Option<u64>)
        ensures
            self.entries().dom().contains((trait_id, tag@)) ==> r == Some(
                self.entries()[(trait_id, tag@)],
            ),
            !self.entries().dom().contains((trait_id, tag@)) ==> r is None,
    {
        table_get(&self.table, trait_id, tag)
    }

    /// Drops every registration.
    pub fn clear(&mut self)
        ensures
            final(self).entries() == no_tags(),
    {
        table_clear(&mut self.table)
    }
}

} // verus!
