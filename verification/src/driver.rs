use vstd::pervasive::unreached;
use vstd::prelude::*;

use crate::document::{docs_view, DocV, Document};
use crate::error::{ErrV, Error};
use crate::projection::{tagged_parts, to_ser_spec, value_doc, ProjV, Projection};
use crate::protocol::{from_de, to_ser, value_into_doc};
use crate::scope::Scope;
use crate::store::{EntityV, Store, StoreV, TypeTagged, TypeTaggedV, Value, ValueV};

verus! {

/// The slot type whose presence is the projection's entity filter; child
/// extractors are not saveable roots and have none.
pub open spec fn root_slot(p: ProjV) -> Option<u64> {
    match p {
        ProjV::Slot { type_id } => Option::Some(type_id),
        ProjV::Tagged { type_id, .. } => Option::Some(type_id),
        ProjV::Object { primary, .. } => Option::Some(primary),
        _ => Option::None,
    }
}

pub open spec fn matches_filter(ent: EntityV, p: ProjV) -> bool {
    match root_slot(p) {
        Option::Some(t) => ent.has_slot(t),
        Option::None => false,
    }
}

/// The documents a save emits: one per entity satisfying the filter, in the
/// store's own iteration order; the first per-entity error aborts the whole
/// save with no partial output.
pub open spec fn save_fold(s: StoreV, p: ProjV, i: int, acc: Seq<DocV>) -> Result<Seq<DocV>, ErrV>
    decreases s.entities.len() - i,
{
    if !(0 <= i < s.entities.len()) {
        Result::Ok(acc)
    } else {
        let ent = s.entities[i];
        if !matches_filter(ent, p) {
            save_fold(s, p, i + 1, acc)
        } else {
            match to_ser_spec(s, ent.id, p) {
                Result::Err(er) => Result::Err(er),
                Result::Ok(Option::None) => save_fold(s, p, i + 1, acc),
                Result::Ok(Option::Some(d)) => save_fold(s, p, i + 1, acc.push(d)),
            }
        }
    }
}

pub open spec fn save_spec(s: StoreV, p: ProjV) -> Result<DocV, ErrV> {
    match save_fold(s, p, 0, Seq::empty()) {
        Result::Err(er) => Result::Err(er),
        Result::Ok(ds) => Result::Ok(DocV::List(ds)),
    }
}

pub open spec fn save_res_view(r: Result<Document, Error>) -> Result<DocV, ErrV> {
    match r {
        Result::Ok(d) => Result::Ok(d@),
        Result::Err(e) => Result::Err(e@),
    }
}

/// What a load does to the store: one fresh entity per document, each written
/// through the projection; the first error aborts, leaving earlier writes.
pub open spec fn load_fold(
    s: StoreV,
    reg: Map<(u64, Seq<char>), u64>,
    p: ProjV,
    ds: Seq<DocV>,
    i: int,
) -> (StoreV, Result<(), ErrV>)
    decreases ds.len() - i,
{
    if !(0 <= i < ds.len()) {
        (s, Result::Ok(()))
    } else if s.next == u64::MAX {
        (s, Result::Err(ErrV::StoreFull))
    } else {
        let (s1, e) = s.spawn_next();
        let (s2, r) = crate::projection::from_de_spec(s1, reg, e, p, ds[i]);
        match r {
            Result::Err(er) => (s2, Result::Err(er)),
            Result::Ok(_) => load_fold(s2, reg, p, ds, i + 1),
        }
    }
}

pub open spec fn load_spec(
    s: StoreV,
    reg: Map<(u64, Seq<char>), u64>,
    p: ProjV,
    d: DocV,
) -> (StoreV, Result<(), ErrV>) {
    match d {
        DocV::List(ds) => load_fold(s, reg, p, ds, 0),
        _ => (s, Result::Err(ErrV::ExpectedList)),
    }
}

/// Saves every entity satisfying the projection's filter as an ordered
/// sequence of documents, reading the store through the bound scope only.
/// Invoked on an unbound scope it fails with `ScopeError`.
#[verifier::loop_isolation(false)]
pub fn save(scope: &Scope, p: &Projection) -> (r: Result<Document, Error>)
    requires
        scope.wf(),
        root_slot(p@) is Some,
    ensures
        !scope.is_bound() ==> (r matches Result::Err(e) && e@ == ErrV::ScopeError),
        scope.is_bound() ==> save_res_view(r) == save_spec(scope.store_v(), p@),
{
    if !scope.bound {
        return Result::Err(Error::ScopeError);
    }
    let ghost s = scope.store_v();
    let root: u64 = match p {
        Projection::Slot { type_id } => *type_id,
        Projection::Tagged { type_id, .. } => *type_id,
        Projection::Object(c) => c.primary,
        _ => unreached(),
    };
    let mut docs: Vec<Document> = Vec::new();
    let n = scope.store.entity_count();
    let mut i: usize = 0;
    proof {
        assert(docs_view(docs@) =~= Seq::<DocV>::empty());
    }
    while i < n
        invariant
            i <= n,
            save_fold(s, p@, 0, Seq::empty()) == save_fold(s, p@, i as int, docs_view(docs@)),
        decreases n - i,
    {
        let id = scope.store.entity_id_at(i);
        proof {
            assert(s.has_entity(id));
            let k = s.ent_index(id);
            assert(s.entities[k].id == id);
            assert(k == i as int);
        }
        let present = scope.store.slot_value(id, root);
        if present.is_some() {
            let r = to_ser(scope, id, p);
            match r {
                Result::Err(e) => {
                    return Result::Err(e);
                },
                Result::Ok(Option::None) => {},
                Result::Ok(Option::Some(d)) => {
                    let ghost before = docs_view(docs@);
                    let ghost prev = docs@;
                    let ghost dv = d@;
                    docs.push(d);
                    proof {
                        assert(docs@.drop_last() =~= prev);
                        assert(docs_view(docs@) =~= before.push(dv));
                    }
                },
            }
        }
        i = i + 1;
    }
    Result::Ok(Document::List(docs))
}

/// Loads a saved sequence: for each document, spawns a fresh entity, binds it
/// as the decode cursor, and writes the document into it through the
/// projection. Loaded entities are independent of any handles from the
/// original save. Invoked on an unbound scope it fails with `ScopeError`.
#[verifier::loop_isolation(false)]
pub fn load(scope: &mut Scope, p: &Projection, d: &Document) -> (r: Result<(), Error>)
    requires
        old(scope).wf(),
    ensures
        !old(scope).is_bound() ==> (r matches Result::Err(e) && e@ == ErrV::ScopeError)
            && !final(scope).is_bound() && final(scope).store_v() == old(scope).store_v()
            && final(scope).registry() == old(scope).registry() && final(scope).cursor_v() == old(
            scope,
        ).cursor_v(),
        old(scope).is_bound() ==> final(scope).is_bound() && final(scope).registry() == old(
            scope,
        ).registry() && final(scope).cursor_v() == old(scope).cursor_v() && final(scope).wf() && (
        final(scope).store_v(), crate::protocol::de_res_view(r)) == load_spec(
            old(scope).store_v(),
            old(scope).registry(),
            p@,
            d@,
        ),
{
    if !scope.bound {
        return Result::Err(Error::ScopeError);
    }
    let ghost s0 = scope.store_v();
    let ghost reg = scope.registry();
    match d {
        Document::List(ds) => {
            let ghost dsv = docs_view(ds@);
            proof {
                crate::document::lemma_docs_view(ds@);
            }
            let mut i: usize = 0;
            while i < ds.len()
                invariant
                    i <= ds.len(),
                    scope.is_bound(),
                    scope.wf(),
                    scope.registry() == reg,
                    scope.cursor_v() == old(scope).cursor_v(),
                    load_fold(s0, reg, p@, dsv, 0) == load_fold(
                        scope.store_v(),
                        reg,
                        p@,
                        dsv,
                        i as int,
                    ),
                decreases ds@.len() - i,
            {
                if scope.store.next_id == u64::MAX {
                    return Result::Err(Error::StoreFull);
                }
                let e = scope.store.spawn();
                scope.bind_entity(e);
                let r = from_de(scope, e, p, &ds[i]);
                scope.unbind_entity();
                proof {
                    assert(scope.cursor_v() =~= old(scope).cursor_v());
                }
                match r {
                    Result::Err(er) => {
                        return Result::Err(er);
                    },
                    Result::Ok(_) => {},
                }
                i = i + 1;
            }
            Result::Ok(())
        },
        _ => Result::Err(Error::ExpectedList),
    }
}

/// Whether `id` is an entity matching the filter among the first `n` of the
/// store's entities, or a direct child of one.
pub open spec fn despawn_target_upto(s: StoreV, p: ProjV, id: u64, n: int) -> bool {
    exists|j: int|
        0 <= j < n && matches_filter(#[trigger] s.entities[j], p) && (s.entities[j].id == id
            || s.entities[j].children.contains(id))
}

/// Whether `id` is an entity matching the filter, or a direct child of one.
pub open spec fn despawn_target(s: StoreV, p: ProjV, id: u64) -> bool {
    despawn_target_upto(s, p, id, s.entities.len() as int)
}

/// The entities that survive a despawn, in order.
pub open spec fn survivors(
    ents: Seq<EntityV>,
    s0: StoreV,
    p: ProjV,
    i: int,
    acc: Seq<EntityV>,
) -> Seq<EntityV>
    decreases ents.len() - i,
{
    if !(0 <= i < ents.len()) {
        acc
    } else if despawn_target(s0, p, ents[i].id) {
        survivors(ents, s0, p, i + 1, acc)
    } else {
        survivors(ents, s0, p, i + 1, acc.push(ents[i]))
    }
}

proof fn lemma_push_keeps(sq: Seq<u64>, x: u64, y: u64)
    requires
        sq.contains(y),
    ensures
        sq.push(x).contains(y),
{
    let w = choose|w: int| 0 <= w < sq.len() && sq[w] == y;
    assert(sq.push(x)[w] == y);
}

fn ids_contain(v: &Vec<u64>, x: u64) -> (r: bool)
    ensures
        r == v@.contains(x),
{
    let mut i: usize = 0;
    while i < v.len()
        invariant
            i <= v.len(),
            forall|j: int| 0 <= j < i ==> v@[j] != x,
        decreases v@.len() - i,
    {
        if v[i] == x {
            return true;
        }
        i = i + 1;
    }
    false
}

impl Store {
    /// Removes every entity matching the projection's filter, together with
    /// its children: the store-side clearing operation callers run before a
    /// load; a load never invokes it itself.
    #[verifier::loop_isolation(false)]
    pub fn despawn_bound_objects(&mut self, p: &Projection)
        requires
            old(self)@.wf(),
            root_slot(p@) is Some,
        ensures
            final(self)@.wf(),
            final(self)@.next == old(self)@.next,
            final(self)@.entities == survivors(
                old(self)@.entities,
                old(self)@,
                p@,
                0,
                Seq::empty(),
            ),
    {
        let ghost s0 = self@;
        let root: u64 = match p {
            Projection::Slot { type_id } => *type_id,
            Projection::Tagged { type_id, .. } => *type_id,
            Projection::Object(c) => c.primary,
            _ => unreached(),
        };
        let mut targets: Vec<u64> = Vec::new();
        let n = self.entities.len();
        let mut i: usize = 0;
        while i < n
            invariant
                i <= n,
                n == s0.entities.len(),
                self@ == s0,
                forall|k: int|
                    0 <= k < targets@.len() ==> despawn_target_upto(
                        s0,
                        p@,
                        #[trigger] targets@[k],
                        i as int,
                    ),
                forall|id: u64|
                    despawn_target_upto(s0, p@, id, i as int) ==> targets@.contains(id),
            decreases n - i,
        {
            let matched = self.slot_value(self.entities[i].id, root).is_some();
            proof {
                let id = s0.entities[i as int].id;
                assert(s0.has_entity(id));
                let k = s0.ent_index(id);
                assert(s0.entities[k].id == id);
                assert(k == i as int);
            }
            if matched {
                let ghost before = targets@;
                targets.push(self.entities[i].id);
                proof {
                    assert(targets@[targets@.len() - 1] == s0.entities[i as int].id);
                    assert(targets@.contains(s0.entities[i as int].id));
                    assert forall|id2: u64|
                        despawn_target_upto(s0, p@, id2, i as int) implies targets@.contains(
                        id2,
                    ) by {
                        lemma_push_keeps(before, s0.entities[i as int].id, id2);
                    }
                }
                let ent_children_len = self.entities[i].children.len();
                let mut c: usize = 0;
                while c < ent_children_len
                    invariant
                        c <= ent_children_len,
                        self@ == s0,
                        i < n,
                        n == s0.entities.len(),
                        matches_filter(s0.entities[i as int], p@),
                        ent_children_len == s0.entities[i as int].children.len(),
                        forall|k: int|
                            0 <= k < targets@.len() ==> despawn_target_upto(
                                s0,
                                p@,
                                #[trigger] targets@[k],
                                i + 1,
                            ),
                        forall|id: u64|
                            despawn_target_upto(s0, p@, id, i as int)
                                ==> targets@.contains(id),
                        targets@.contains(s0.entities[i as int].id),
                        forall|t: int|
                            0 <= t < c ==> targets@.contains(
                                #[trigger] s0.entities[i as int].children[t],
                            ),
                    decreases ent_children_len - c,
                {
                    let ghost tprev = targets@;
                    targets.push(self.entities[i].children[c]);
                    proof {
                        assert(targets@[targets@.len() - 1] == s0.entities[
                            i as int
                        ].children[c as int]);
                        assert forall|id2: u64|
                            despawn_target_upto(s0, p@, id2, i as int) implies targets@.contains(
                            id2,
                        ) by {
                            lemma_push_keeps(tprev, s0.entities[i as int].children[c as int], id2);
                        }
                        assert(tprev.contains(s0.entities[i as int].id));
                        lemma_push_keeps(
                            tprev,
                            s0.entities[i as int].children[c as int],
                            s0.entities[i as int].id,
                        );
                        assert forall|t: int|
                            0 <= t < c + 1 implies targets@.contains(
                            #[trigger] s0.entities[i as int].children[t],
                        ) by {
                            if t < c {
                                lemma_push_keeps(
                                    tprev,
                                    s0.entities[i as int].children[c as int],
                                    s0.entities[i as int].children[t],
                                );
                            } else {
                                assert(targets@[targets@.len() - 1] == s0.entities[
                                    i as int
                                ].children[t]);
                            }
                        }
                    }
                    c = c + 1;
                }
                proof {
                    assert forall|id: u64|
                        despawn_target_upto(s0, p@, id, i + 1) implies targets@.contains(
                        id,
                    ) by {
                        let j = choose|j: int|
                            0 <= j < i + 1 && matches_filter(#[trigger] s0.entities[j], p@) && (
                            s0.entities[j].id == id || s0.entities[j].children.contains(id));
                        if j < i {
                            assert(despawn_target_upto(s0, p@, id, i as int));
                        } else {
                            if s0.entities[j].id != id {
                                let t = choose|t: int|
                                    0 <= t < s0.entities[j].children.len()
                                        && s0.entities[j].children[t] == id;
                                assert(targets@.contains(s0.entities[i as int].children[t]));
                            }
                        }
                    }
                }
            } else {
                proof {
                    assert(!matches_filter(s0.entities[i as int], p@));
                    assert forall|id: u64|
                        despawn_target_upto(s0, p@, id, i + 1) implies targets@.contains(
                        id,
                    ) by {
                        let j = choose|j: int|
                            0 <= j < i + 1 && matches_filter(#[trigger] s0.entities[j], p@) && (
                            s0.entities[j].id == id || s0.entities[j].children.contains(id));
                        assert(j < i);
                        assert(despawn_target_upto(s0, p@, id, i as int));
                    }
                }
            }
            i = i + 1;
        }
        let ghost allv = s0.entities;
        let mut drained: Vec<crate::store::Entity> = Vec::new();
        std::mem::swap(&mut self.entities, &mut drained);
        let mut kept: Vec<crate::store::Entity> = Vec::new();
        let mut w: usize = 0;
        proof {
            assert(kept@.map_values(|e: crate::store::Entity| crate::store::entity_view(e))
                =~= Seq::<EntityV>::empty());
            assert(drained@.map_values(|e: crate::store::Entity| crate::store::entity_view(e))
                =~= allv.subrange(0, allv.len() as int));
        }
        while drained.len() > 0
            invariant
                w + drained@.len() == n,
                n == allv.len(),
                drained@.map_values(|e: crate::store::Entity| crate::store::entity_view(e))
                    == allv.subrange(w as int, allv.len() as int),
                forall|k: int|
                    0 <= k < targets@.len() ==> despawn_target(s0, p@, #[trigger] targets@[k]),
                forall|id: u64| despawn_target(s0, p@, id) ==> targets@.contains(id),
                survivors(allv, s0, p@, 0, Seq::empty()) == survivors(
                    allv,
                    s0,
                    p@,
                    w as int,
                    kept@.map_values(|e: crate::store::Entity| crate::store::entity_view(e)),
                ),
            decreases drained@.len(),
        {
            let ghost dprev = drained@;
            let ent = drained.remove(0);
            proof {
                assert(dprev.map_values(|e: crate::store::Entity| crate::store::entity_view(e))[0]
                    == allv[w as int]);
                assert(crate::store::entity_view(ent) == allv[w as int]);
                assert(drained@ =~= dprev.subrange(1, dprev.len() as int));
                assert forall|k: int| 0 <= k < drained@.len() implies crate::store::entity_view(
                    #[trigger] drained@[k],
                ) == allv[w + 1 + k] by {
                    assert(drained@[k] == dprev[k + 1]);
                    assert(dprev.map_values(
                        |e: crate::store::Entity| crate::store::entity_view(e),
                    )[k + 1] == allv.subrange(w as int, allv.len() as int)[k + 1]);
                }
                assert(drained@.map_values(|e: crate::store::Entity| crate::store::entity_view(e))
                    =~= allv.subrange(w + 1, allv.len() as int));
            }
            let id = ent.id;
            proof {
                assert(id == allv[w as int].id);
            }
            let hit = ids_contain(&targets, id);
            proof {
                if !hit {
                    assert(!despawn_target(s0, p@, allv[w as int].id));
                }
            }
            if !hit {
                let ghost prev = kept@.map_values(
                    |e: crate::store::Entity| crate::store::entity_view(e),
                );
                kept.push(ent);
                proof {
                    assert(kept@.map_values(
                        |e: crate::store::Entity| crate::store::entity_view(e),
                    ) =~= prev.push(allv[w as int]));
                }
            }
            w = w + 1;
        }
        self.entities = kept;
        proof {
            assert(final(self)@.entities =~= survivors(allv, s0, p@, 0, Seq::empty()));
            lemma_survivors_wf(allv, s0, p@, 0, Seq::empty(), s0.next);
            assert(final(self)@.wf());
        }
    }
}

/// Survivors keep the store's well-formedness: they are drawn from the
/// original entities, without duplication.
proof fn lemma_survivors_wf(
    ents: Seq<EntityV>,
    s0: StoreV,
    p: ProjV,
    i: int,
    acc: Seq<EntityV>,
    nx: u64,
)
    requires
        0 <= i <= ents.len(),
        forall|a: int|
            0 <= a < acc.len() ==> (#[trigger] acc[a]).id < nx && crate::store::unique_slot_keys(
                acc[a].slots,
            ),
        forall|a1: int, a2: int|
            0 <= a1 < acc.len() && 0 <= a2 < acc.len() && a1 != a2 ==> (#[trigger] acc[a1]).id
                != (#[trigger] acc[a2]).id,
        forall|a: int, b: int|
            0 <= a < acc.len() && i <= b < ents.len() ==> (#[trigger] acc[a]).id != (
            #[trigger] ents[b]).id,
        forall|b: int|
            0 <= b < ents.len() ==> (#[trigger] ents[b]).id < nx
                && crate::store::unique_slot_keys(ents[b].slots),
        forall|b1: int, b2: int|
            0 <= b1 < ents.len() && 0 <= b2 < ents.len() && b1 != b2 ==> (
            #[trigger] ents[b1]).id != (#[trigger] ents[b2]).id,
    ensures
        forall|a: int|
            0 <= a < survivors(ents, s0, p, i, acc).len() ==> (#[trigger] survivors(
                ents,
                s0,
                p,
                i,
                acc,
            )[a]).id < nx && crate::store::unique_slot_keys(survivors(ents, s0, p, i, acc)[a].slots),
        forall|a1: int, a2: int|
            0 <= a1 < survivors(ents, s0, p, i, acc).len() && 0 <= a2 < survivors(
                ents,
                s0,
                p,
                i,
                acc,
            ).len() && a1 != a2 ==> (#[trigger] survivors(ents, s0, p, i, acc)[a1]).id != (
            #[trigger] survivors(ents, s0, p, i, acc)[a2]).id,
    decreases ents.len() - i,
{
    let out = survivors(ents, s0, p, i, acc);
    if i >= ents.len() {
        assert(out == acc);
        assert forall|a: int|
            0 <= a < out.len() implies (#[trigger] out[a]).id < nx
            && crate::store::unique_slot_keys(out[a].slots) by {
            assert(out[a] == acc[a]);
        }
        assert forall|a1: int, a2: int|
            0 <= a1 < out.len() && 0 <= a2 < out.len() && a1 != a2 implies (
        #[trigger] out[a1]).id != (#[trigger] out[a2]).id by {
            assert(out[a1] == acc[a1] && out[a2] == acc[a2]);
        }
    }
    if i < ents.len() {
        if despawn_target(s0, p, ents[i].id) {
            lemma_survivors_wf(ents, s0, p, i + 1, acc, nx);
            let rec = survivors(ents, s0, p, i + 1, acc);
            assert(out == rec);
            assert forall|a: int|
                0 <= a < out.len() implies (#[trigger] out[a]).id < nx
                && crate::store::unique_slot_keys(out[a].slots) by {
                assert(out[a] == rec[a]);
            }
            assert forall|a1: int, a2: int|
                0 <= a1 < out.len() && 0 <= a2 < out.len() && a1 != a2 implies (
            #[trigger] out[a1]).id != (#[trigger] out[a2]).id by {
                assert(out[a1] == rec[a1] && out[a2] == rec[a2]);
            }
        } else {
            let acc2 = acc.push(ents[i]);
            assert(acc2[acc.len() as int] == ents[i]);
            assert forall|a: int|
                0 <= a < acc2.len() implies (#[trigger] acc2[a]).id < nx
                && crate::store::unique_slot_keys(acc2[a].slots) by {
                if a < acc.len() {
                    assert(acc2[a] == acc[a]);
                } else {
                    assert(acc2[a] == ents[i]);
                }
            }
            assert forall|a1: int, a2: int|
                0 <= a1 < acc2.len() && 0 <= a2 < acc2.len() && a1 != a2 implies (
            #[trigger] acc2[a1]).id != (#[trigger] acc2[a2]).id by {
                if a1 < acc.len() && a2 < acc.len() {
                } else if a1 < acc.len() {
                    assert(acc2[a2] == ents[i]);
                } else if a2 < acc.len() {
                    assert(acc2[a1] == ents[i]);
                }
            }
            assert forall|a: int, b: int|
                0 <= a < acc2.len() && i + 1 <= b < ents.len() implies (#[trigger] acc2[a]).id
                != (#[trigger] ents[b]).id by {
                if a < acc.len() {
                    assert(acc2[a] == acc[a]);
                } else {
                    assert(acc2[a] == ents[i]);
                }
            }
            lemma_survivors_wf(ents, s0, p, i + 1, acc2, nx);
            let rec = survivors(ents, s0, p, i + 1, acc2);
            assert(out == rec);
            assert forall|a: int|
                0 <= a < out.len() implies (#[trigger] out[a]).id < nx
                && crate::store::unique_slot_keys(out[a].slots) by {
                assert(out[a] == rec[a]);
            }
            assert forall|a1: int, a2: int|
                0 <= a1 < out.len() && 0 <= a2 < out.len() && a1 != a2 implies (
            #[trigger] out[a1]).id != (#[trigger] out[a2]).id by {
                assert(out[a1] == rec[a1] && out[a2] == rec[a2]);
            }
        }
    }
}

/// Spec shape of a tagged-decode result.
pub open spec fn tagged_res_view(r: Result<TypeTagged, Error>) -> Result<TypeTaggedV, ErrV> {
    match r {
        Result::Ok(t) => Result::Ok(t@),
        Result::Err(e) => Result::Err(e@),
    }
}

/// What decoding an externally tagged document yields: the scope must be
/// bound, the document a single-entry map, and the variant name registered
/// for the trait-object type.
pub open spec fn decode_tagged_spec(
    bound: bool,
    reg: Map<(u64, Seq<char>), u64>,
    trait_id: u64,
    d: DocV,
) -> Result<TypeTaggedV, ErrV> {
    if !bound {
        Result::Err(ErrV::ScopeError)
    } else {
        match tagged_parts(d) {
            Option::None => Result::Err(ErrV::ExpectedTagged),
            Option::Some((tag, payload)) => if !reg.dom().contains((trait_id, tag)) {
                Result::Err(ErrV::UnregisteredTag { tag })
            } else {
                Result::Ok(TypeTaggedV { tag, payload })
            },
        }
    }
}

/// Decodes an externally tagged trait-object document, resolving its variant
/// name through the registry reachable only through the bound scope: this is
/// the one read that needs the scope even for a single field, because no
/// static type information can resolve it.
pub fn decode_tagged(scope: &Scope, trait_id: u64, d: &Document) -> (r: Result<TypeTagged, Error>)
    ensures
        tagged_res_view(r) == decode_tagged_spec(scope.is_bound(), scope.registry(), trait_id, d@),
{
    if !scope.bound {
        return Result::Err(Error::ScopeError);
    }
    match d {
        Document::Dict(prs) => {
            proof {
                crate::document::lemma_pairs_view(prs@);
            }
            if prs.len() != 1 {
                return Result::Err(Error::ExpectedTagged);
            }
            match &prs[0].0 {
                Document::Str(tag) => {
                    let found = scope.server.get(trait_id, tag.as_str());
                    if found.is_none() {
                        return Result::Err(Error::UnregisteredTag { tag: tag.clone() });
                    }
                    Result::Ok(TypeTagged { tag: tag.clone(), payload: prs[0].1.duplicate() })
                },
                _ => Result::Err(Error::ExpectedTagged),
            }
        },
        _ => Result::Err(Error::ExpectedTagged),
    }
}

impl TypeTagged {
    /// Writes the externally tagged form: a single-entry map from the variant
    /// name to the inner value's document. Writing needs no registry access.
    pub fn to_document(&self) -> (d: Document)
        ensures
            d@ == value_doc(ValueV::Tagged(self@)),
    {
        value_into_doc(Value::Tagged(self.duplicate()))
    }
}

} // verus!
