use vstd::prelude::*;

use crate::document::{doc_view, DocV, Document};

verus! {

/// Spec shape of an externally tagged trait-object value.
pub struct TypeTaggedV {
    pub tag: Seq<char>,
    pub payload: DocV,
}

/// A serializable trait-object value: a variant tag naming the concrete type
/// and the concrete value's own document. Writing it needs no registry; reading
/// one back resolves the tag through the registry in the bound scope.
#[derive(Debug, PartialEq, Eq)]
pub struct TypeTagged {
    pub tag: String,
    pub payload: Document,
}

impl View for TypeTagged {
    type V = TypeTaggedV;

    open spec fn view(&self) -> TypeTaggedV {
        TypeTaggedV { tag: self.tag@, payload: self.payload@ }
    }
}

impl TypeTagged {
    pub fn duplicate(&self) -> (r: TypeTagged)
        ensures
            r@ == self@,
    {
        TypeTagged { tag: self.tag.clone(), payload: self.payload.duplicate() }
    }
}

/// Spec shape of a slot value.
pub enum ValueV {
    Plain(DocV),
    Tagged(TypeTaggedV),
}

/// One typed data slot's value: either a statically typed value, held as the
/// document it serializes to, or a trait-object value with its variant tag.
#[derive(Debug, PartialEq, Eq)]
pub enum Value {
    Plain(Document),
    Tagged(TypeTagged),
}

pub open spec fn value_view(v: Value) -> ValueV {
    match v {
        Value::Plain(d) => ValueV::Plain(doc_view(d)),
        Value::Tagged(t) => ValueV::Tagged(t@),
    }
}

impl View for Value {
    type V = ValueV;

    open spec fn view(&self) -> ValueV {
        value_view(*self)
    }
}

impl Value {
    pub fn duplicate(&self) -> (r: Value)
        ensures
            r@ == self@,
    {
        match self {
            Value::Plain(d) => Value::Plain(d.duplicate()),
            Value::Tagged(t) => Value::Tagged(t.duplicate()),
        }
    }
}

/// Spec shape of one entity: its handle, its typed slots (at most one per
/// type id) and its ordered child list.
pub struct EntityV {
    pub id: u64,
    pub slots: Seq<(u64, ValueV)>,
    pub children: Seq<u64>,
}

/// One node of the store.
#[derive(Debug)]
pub struct Entity {
    pub id: u64,
    pub slots: Vec<(u64, Value)>,
    pub children: Vec<u64>,
}

pub open spec fn entity_view(e: Entity) -> EntityV {
    EntityV {
        id: e.id,
        slots: e.slots@.map_values(|p: (u64, Value)| (p.0, value_view(p.1))),
        children: e.children@,
    }
}

impl View for Entity {
    type V = EntityV;

    open spec fn view(&self) -> EntityV {
        entity_view(*self)
    }
}

pub open spec fn unique_slot_keys(slots: Seq<(u64, ValueV)>) -> bool {
    forall|i: int, j: int|
        0 <= i < slots.len() && 0 <= j < slots.len() && i != j ==> (#[trigger] slots[i]).0 != (
        #[trigger] slots[j]).0
}

pub open spec fn has_slot_key(slots: Seq<(u64, ValueV)>, tid: u64) -> bool {
    exists|i: int| 0 <= i < slots.len() && (#[trigger] slots[i]).0 == tid
}

pub open spec fn slot_index(slots: Seq<(u64, ValueV)>, tid: u64) -> int {
    choose|i: int| 0 <= i < slots.len() && (#[trigger] slots[i]).0 == tid
}

pub open spec fn get_slot(slots: Seq<(u64, ValueV)>, tid: u64) -> Option<ValueV> {
    if has_slot_key(slots, tid) {
        Some(slots[slot_index(slots, tid)].1)
    } else {
        None
    }
}

pub open spec fn set_slot(slots: Seq<(u64, ValueV)>, tid: u64, v: ValueV) -> Seq<(u64, ValueV)> {
    if has_slot_key(slots, tid) {
        slots.update(slot_index(slots, tid), (tid, v))
    } else {
        slots.push((tid, v))
    }
}

impl EntityV {
    pub open spec fn has_slot(self, tid: u64) -> bool {
        has_slot_key(self.slots, tid)
    }

    pub open spec fn slot(self, tid: u64) -> Option<ValueV> {
        get_slot(self.slots, tid)
    }

    pub open spec fn with_slot(self, tid: u64, v: ValueV) -> EntityV {
        EntityV { slots: set_slot(self.slots, tid, v), ..self }
    }

    pub open spec fn with_child(self, c: u64) -> EntityV {
        EntityV { children: self.children.push(c), ..self }
    }
}

/// Spec shape of the whole store: the entities in their native iteration
/// order, and the next handle to be handed out.
pub struct StoreV {
    pub entities: Seq<EntityV>,
    pub next: u64,
}

impl StoreV {
    pub open spec fn has_entity(self, id: u64) -> bool {
        exists|i: int| 0 <= i < self.entities.len() && (#[trigger] self.entities[i]).id == id
    }

    pub open spec fn ent_index(self, id: u64) -> int {
        choose|i: int| 0 <= i < self.entities.len() && (#[trigger] self.entities[i]).id == id
    }

    pub open spec fn find_entity(self, id: u64) -> Option<EntityV> {
        if self.has_entity(id) {
            Some(self.entities[self.ent_index(id)])
        } else {
            None
        }
    }

    pub open spec fn update_entity(self, id: u64, e: EntityV) -> StoreV {
        StoreV { entities: self.entities.update(self.ent_index(id), e), ..self }
    }

    /// The store after one fresh spawn, and the handle it yields.
    pub open spec fn spawn_next(self) -> (StoreV, u64) {
        (
            StoreV {
                entities: self.entities.push(
                    EntityV { id: self.next, slots: Seq::empty(), children: Seq::empty() },
                ),
                next: (self.next + 1) as u64,
            },
            self.next,
        )
    }

    pub open spec fn remove_entity(self, id: u64) -> StoreV {
        if self.has_entity(id) {
            StoreV { entities: self.entities.remove(self.ent_index(id)), ..self }
        } else {
            self
        }
    }

    /// Well-formedness: handles are unique and below the spawn counter, and
    /// each entity holds at most one slot per type id.
    pub open spec fn wf(self) -> bool {
        &&& forall|i: int, j: int|
            0 <= i < self.entities.len() && 0 <= j < self.entities.len() && i != j ==> (
            #[trigger] self.entities[i]).id != (#[trigger] self.entities[j]).id
        &&& forall|i: int|
            0 <= i < self.entities.len() ==> (#[trigger] self.entities[i]).id < self.next
        &&& forall|i: int|
            0 <= i < self.entities.len() ==> unique_slot_keys(
                (#[trigger] self.entities[i]).slots,
            )
    }
}

/// The entity store model: a tree-shaped mutable container of entities, each
/// with typed data slots and an ordered child list. The concrete storage
/// engine this stands in for is an external collaborator; this model holds as
/// plain values exactly what the projection protocol reads and writes.
#[derive(Debug)]
pub struct Store {
    pub entities: Vec<Entity>,
    pub next_id: u64,
}

impl View for Store {
    type V = StoreV;

    open spec fn view(&self) -> StoreV {
        StoreV {
            entities: self.entities@.map_values(|e: Entity| entity_view(e)),
            next: self.next_id,
        }
    }
}

pub proof fn lemma_set_slot_unique(slots: Seq<(u64, ValueV)>, tid: u64, v: ValueV)
    requires
        unique_slot_keys(slots),
    ensures
        unique_slot_keys(set_slot(slots, tid, v)),
        get_slot(set_slot(slots, tid, v), tid) == Some(v),
        forall|t: u64| t != tid ==> get_slot(set_slot(slots, tid, v), t) == get_slot(slots, t),
{
    let out = set_slot(slots, tid, v);
    if has_slot_key(slots, tid) {
        let k = slot_index(slots, tid);
        assert(out[k] == (tid, v));
        assert forall|t: u64| t != tid implies get_slot(out, t) == get_slot(slots, t) by {
            if has_slot_key(slots, t) {
                let j = slot_index(slots, t);
                assert(out[j] == slots[j]);
                assert(has_slot_key(out, t));
                let j2 = slot_index(out, t);
                assert(out[j2].0 == t);
                assert(slots[j2].0 == t);
                assert(j2 == j);
            } else {
                if has_slot_key(out, t) {
                    let j2 = slot_index(out, t);
                    assert(slots[j2].0 == t);
                }
            }
        }
        assert(has_slot_key(out, tid));
        let k2 = slot_index(out, tid);
        if k2 != k {
            assert(slots[k2].0 == tid);
        }
    } else {
        assert(out[slots.len() as int] == (tid, v));
        assert forall|t: u64| t != tid implies get_slot(out, t) == get_slot(slots, t) by {
            if has_slot_key(slots, t) {
                let j = slot_index(slots, t);
                assert(out[j] == slots[j]);
                assert(has_slot_key(out, t));
                let j2 = slot_index(out, t);
                if j2 == slots.len() as int {
                    assert(out[j2].0 == tid);
                }
                assert(slots[j2].0 == t);
                assert(j2 == j);
            } else {
                if has_slot_key(out, t) {
                    let j2 = slot_index(out, t);
                    if j2 < slots.len() as int {
                        assert(slots[j2].0 == t);
                    }
                }
            }
        }
        assert(has_slot_key(out, tid));
        let k2 = slot_index(out, tid);
        if k2 != slots.len() as int {
            assert(slots[k2].0 == tid);
        }
    }
}

impl Store {
    pub fn new() -> (s: Store)
        ensures
            s@ == (StoreV { entities: Seq::<EntityV>::empty(), next: 0u64 }),
            s@.wf(),
    {
        let s = Store { entities: Vec::new(), next_id: 0 };
        proof {
            assert(s@.entities =~= Seq::<EntityV>::empty());
        }
        s
    }

    /// Index of the entity holding handle `id`, if it is live.
    #[verifier::loop_isolation(false)]
    fn index_of(&self, id: u64) -> (r: Option<usize>)
        ensures
            match r {
                Some(i) => i < self.entities@.len() && self@.entities[i as int].id == id
                    && self@.has_entity(id),
                None => !self@.has_entity(id),
            },
    {
        let mut i: usize = 0;
        while i < self.entities.len()
            invariant
                i <= self.entities.len(),
                forall|j: int| 0 <= j < i ==> self@.entities[j].id != id,
            decreases self.entities@.len() - i,
        {
            if self.entities[i].id == id {
                return Some(i);
            }
            i = i + 1;
        }
        None
    }

    pub fn has_entity(&self, id: u64) -> (r: bool)
        ensures
            r == self@.has_entity(id),
    {
        self.index_of(id).is_some()
    }

    pub fn entity_count(&self) -> (r: usize)
        ensures
            r == self@.entities.len(),
    {
        self.entities.len()
    }

    pub fn entity_id_at(&self, i: usize) -> (id: u64)
        requires
            i < self@.entities.len(),
        ensures
            id == self@.entities[i as int].id,
    {
        self.entities[i].id
    }

    /// The value in `id`'s slot of type `tid`, if both are present.
    #[verifier::loop_isolation(false)]
    pub fn slot_value(&self, id: u64, tid: u64) -> (r: Option<Value>)
        requires
            self@.wf(),
        ensures
            match self@.find_entity(id) {
                Some(e) => match r {
                    Some(v) => e.slot(tid) == Some(v@),
                    None => e.slot(tid) is None,
                },
                None => r is None,
            },
    {
        let idx = match self.index_of(id) {
            Some(i) => i,
            None => {
                return None;
            },
        };
        proof {
            let k = self@.ent_index(id);
            assert(self@.entities[k].id == id);
            assert(k == idx as int);
        }
        let ent = &self.entities[idx];
        let ghost ev = self@.entities[idx as int];
        let mut i: usize = 0;
        while i < ent.slots.len()
            invariant
                i <= ent.slots.len(),
                ev == entity_view(*ent),
                forall|j: int| 0 <= j < i ==> ev.slots[j].0 != tid,
            decreases ent.slots@.len() - i,
        {
            if ent.slots[i].0 == tid {
                let v = ent.slots[i].1.duplicate();
                proof {
                    assert(ev.slots[i as int].0 == tid);
                    assert(has_slot_key(ev.slots, tid));
                    let k = slot_index(ev.slots, tid);
                    assert(ev.slots[k].0 == tid);
                    assert(unique_slot_keys(ev.slots));
                    assert(k == i as int);
                }
                return Some(v);
            }
            i = i + 1;
        }
        proof {
            if has_slot_key(ev.slots, tid) {
                let k = slot_index(ev.slots, tid);
                assert(ev.slots[k].0 == tid);
            }
        }
        None
    }

    /// The child list of `id`, if it is live.
    #[verifier::loop_isolation(false)]
    pub fn children_of(&self, id: u64) -> (r: Option<Vec<u64>>)
        requires
            self@.wf(),
        ensures
            match self@.find_entity(id) {
                Some(e) => r matches Some(cs) && cs@ == e.children,
                None => r is None,
            },
    {
        let idx = match self.index_of(id) {
            Some(i) => i,
            None => {
                return None;
            },
        };
        proof {
            let k = self@.ent_index(id);
            assert(self@.entities[k].id == id);
            assert(k == idx as int);
        }
        let ent = &self.entities[idx];
        let mut out: Vec<u64> = Vec::new();
        let mut i: usize = 0;
        while i < ent.children.len()
            invariant
                i <= ent.children.len(),
                out@ == ent.children@.subrange(0, i as int),
            decreases ent.children@.len() - i,
        {
            out.push(ent.children[i]);
            proof {
                assert(out@ =~= ent.children@.subrange(0, i + 1 as int));
            }
            i = i + 1;
        }
        proof {
            assert(out@ =~= ent.children@);
        }
        Some(out)
    }

    /// Spawns a fresh, empty entity and returns its handle.
    pub fn spawn(&mut self) -> (id: u64)
        requires
            old(self)@.wf(),
            old(self)@.next < u64::MAX,
        ensures
            (final(self)@, id) == old(self)@.spawn_next(),
            final(self)@.wf(),
    {
        let id = self.next_id;
        let ent = Entity { id, slots: Vec::new(), children: Vec::new() };
        proof {
            assert(entity_view(ent).slots =~= Seq::<(u64, ValueV)>::empty());
            assert(entity_view(ent).children =~= Seq::<u64>::empty());
        }
        self.entities.push(ent);
        self.next_id = self.next_id + 1;
        proof {
            assert(final(self)@.entities =~= old(self)@.spawn_next().0.entities);
        }
        id
    }

    /// Writes value `v` into `id`'s slot of type `tid`, replacing any value of
    /// the same type; returns false when `id` is not live.
    #[verifier::loop_isolation(false)]
    pub fn insert_slot(&mut self, id: u64, tid: u64, v: Value) -> (ok: bool)
        requires
            old(self)@.wf(),
        ensures
            ok == old(self)@.has_entity(id),
            ok ==> final(self)@ == old(self)@.update_entity(
                id,
                old(self)@.find_entity(id).unwrap().with_slot(tid, v@),
            ),
            !ok ==> final(self)@ == old(self)@,
            final(self)@.wf(),
    {
        let idx = match self.index_of(id) {
            Some(i) => i,
            None => {
                return false;
            },
        };
        proof {
            let k = self@.ent_index(id);
            assert(self@.entities[k].id == id);
            assert(k == idx as int);
        }
        let ghost old_ent = self@.entities[idx as int];
        let ghost vv = v@;
        let ent = &mut self.entities[idx];
        let ghost old_slots = old_ent.slots;
        let mut i: usize = 0;
        let mut found = false;
        while i < ent.slots.len() && !found
            invariant
                i <= ent.slots.len(),
                !found ==> entity_view(*ent) == old_ent,
                !found ==> forall|j: int| 0 <= j < i ==> old_slots[j].0 != tid,
                found ==> i >= 1 && i - 1 < old_slots.len() && old_slots[i - 1].0 == tid
                    && entity_view(*ent) == (EntityV {
                    slots: old_slots.update(i - 1, (tid, vv)),
                    ..old_ent
                }),
            decreases ent.slots@.len() - i,
        {
            if ent.slots[i].0 == tid {
                let dup = v.duplicate();
                ent.slots.set(i, (tid, dup));
                found = true;
                proof {
                    assert(entity_view(*ent).slots =~= old_slots.update(i as int, (tid, vv)));
                }
            }
            i = i + 1;
        }
        if !found {
            let dup = v.duplicate();
            ent.slots.push((tid, dup));
            proof {
                assert(entity_view(*ent).slots =~= old_slots.push((tid, vv)));
            }
        }
        proof {
            assert(unique_slot_keys(old_slots));
            lemma_set_slot_unique(old_slots, tid, vv);
            if found {
                assert(has_slot_key(old_slots, tid)) by {
                    assert(old_slots[i - 1].0 == tid);
                }
                let k = slot_index(old_slots, tid);
                assert(old_slots[k].0 == tid);
                assert(k == i - 1);
                assert(entity_view(*ent).slots =~= set_slot(old_slots, tid, vv));
            } else {
                if has_slot_key(old_slots, tid) {
                    let k = slot_index(old_slots, tid);
                    assert(old_slots[k].0 == tid);
                }
                assert(entity_view(*ent).slots =~= set_slot(old_slots, tid, vv));
            }
            assert(entity_view(*ent) == old_ent.with_slot(tid, vv));
            assert(final(self)@.entities =~= old(self)@.update_entity(
                id,
                old_ent.with_slot(tid, vv),
            ).entities);
            assert(final(self)@.wf());
        }
        true
    }

    /// Appends `child` to `parent`'s child list; returns false when `parent`
    /// is not live.
    pub fn add_child(&mut self, parent: u64, child: u64) -> (ok: bool)
        requires
            old(self)@.wf(),
        ensures
            ok == old(self)@.has_entity(parent),
            ok ==> final(self)@ == old(self)@.update_entity(
                parent,
                old(self)@.find_entity(parent).unwrap().with_child(child),
            ),
            !ok ==> final(self)@ == old(self)@,
            final(self)@.wf(),
    {
        let idx = match self.index_of(parent) {
            Some(i) => i,
            None => {
                return false;
            },
        };
        proof {
            let k = self@.ent_index(parent);
            assert(self@.entities[k].id == parent);
            assert(k == idx as int);
        }
        let ghost old_ent = self@.entities[idx as int];
        let ent = &mut self.entities[idx];
        ent.children.push(child);
        proof {
            assert(entity_view(*ent) == old_ent.with_child(child));
            assert(final(self)@.entities =~= old(self)@.update_entity(
                parent,
                old_ent.with_child(child),
            ).entities);
        }
        true
    }

    /// Removes the entity holding `id`; its children are left alone (callers
    /// that want subtree removal drive this through `despawn_bound_objects`).
    pub fn despawn(&mut self, id: u64)
        requires
            old(self)@.wf(),
        ensures
            final(self)@ == old(self)@.remove_entity(id),
            final(self)@.wf(),
    {
        let idx = match self.index_of(id) {
            Some(i) => i,
            None => {
                return ;
            },
        };
        proof {
            let k = self@.ent_index(id);
            assert(self@.entities[k].id == id);
            assert(k == idx as int);
        }
        self.entities.remove(idx);
        proof {
            assert(final(self)@.entities =~= old(self)@.remove_entity(id).entities);
        }
    }
}

} // verus!
