use vstd::prelude::*;

use crate::document::DocV;
use crate::driver::{decode_tagged_spec, despawn_target, load_fold, load_spec, matches_filter,
    save_fold, save_spec, survivors};
use crate::error::ErrV;
use crate::projection::{child_items, dict_lookup, fields_fold, find_err, from_de_spec, label_v,
    leaf_ser, obj_de, oks, ser_item, solo_of, tagged_parts, to_ser_spec, value_doc, ProjV};
use crate::store::{lemma_set_slot_unique, EntityV, StoreV, TypeTaggedV, ValueV};

verus! {

/// The child list of a live entity.
pub open spec fn kids(s: StoreV, e: u64) -> Seq<u64> {
    match s.find_entity(e) {
        Option::Some(ent) => ent.children,
        Option::None => Seq::empty(),
    }
}

/// Whether reading child `c` under the nested projection yields an instance.
pub open spec fn is_match(s: StoreV, c: u64, q: ProjV) -> bool {
    to_ser_spec(s, c, q) matches Result::Ok(Option::Some(_))
}

/// A child list none of whose members matches or fails contributes no items.
proof fn lemma_items_none(s: StoreV, cs: Seq<u64>, q: ProjV)
    requires
        forall|k: int| 0 <= k < cs.len() ==> to_ser_spec(s, #[trigger] cs[k], q) == Result::<
            Option<DocV>,
            ErrV,
        >::Ok(Option::None),
    ensures
        child_items(s, cs, q) == Seq::<Result<DocV, ErrV>>::empty(),
    decreases cs.len(),
{
    if cs.len() > 0 {
        lemma_items_none(s, cs.drop_last(), q);
        assert(cs.last() == cs[cs.len() - 1]);
        assert(child_items(s, cs, q) =~= Seq::<Result<DocV, ErrV>>::empty());
    }
}

/// With no failing child, every collected item is a document.
proof fn lemma_items_ok(s: StoreV, cs: Seq<u64>, q: ProjV)
    requires
        forall|k: int| 0 <= k < cs.len() ==> !(to_ser_spec(s, #[trigger] cs[k], q) is Err),
    ensures
        forall|t: int| 0 <= t < child_items(s, cs, q).len() ==> (#[trigger] child_items(
            s,
            cs,
            q,
        )[t]) is Ok,
    decreases cs.len(),
{
    if cs.len() > 0 {
        lemma_items_ok(s, cs.drop_last(), q);
        let rec = child_items(s, cs.drop_last(), q);
        let last = ser_item(to_ser_spec(s, cs.last(), q));
        assert(cs.last() == cs[cs.len() - 1]);
        assert forall|t: int|
            0 <= t < child_items(s, cs, q).len() implies (#[trigger] child_items(
            s,
            cs,
            q,
        )[t]) is Ok by {
            if t < rec.len() {
                assert(child_items(s, cs, q)[t] == rec[t]);
            } else {
                assert(child_items(s, cs, q)[t] == last[t - rec.len()]);
            }
        }
    }
}

/// A sequence of documents alone holds no error.
proof fn lemma_find_err_all_ok(items: Seq<Result<DocV, ErrV>>)
    requires
        forall|t: int| 0 <= t < items.len() ==> (#[trigger] items[t]) is Ok,
    ensures
        find_err(items) is None,
    decreases items.len(),
{
    if items.len() > 0 {
        assert forall|t: int|
            0 <= t < items.drop_first().len() implies (#[trigger] items.drop_first()[t]) is Ok by {
            assert(items.drop_first()[t] == items[t + 1]);
        }
        lemma_find_err_all_ok(items.drop_first());
    }
}

/// A matching child contributes at least one item.
proof fn lemma_items_some(s: StoreV, cs: Seq<u64>, q: ProjV, i: int)
    requires
        0 <= i < cs.len(),
        is_match(s, cs[i], q),
    ensures
        child_items(s, cs, q).len() >= 1,
    decreases cs.len(),
{
    if i == cs.len() - 1 {
        assert(cs.last() == cs[i]);
    } else {
        assert(cs.drop_last()[i] == cs[i]);
        lemma_items_some(s, cs.drop_last(), q, i);
    }
}

/// Two distinct matching children contribute at least two items.
proof fn lemma_items_two(s: StoreV, cs: Seq<u64>, q: ProjV, i: int, j: int)
    requires
        0 <= i < j < cs.len(),
        is_match(s, cs[i], q),
        is_match(s, cs[j], q),
    ensures
        child_items(s, cs, q).len() >= 2,
    decreases cs.len(),
{
    if j == cs.len() - 1 {
        assert(cs.last() == cs[j]);
        assert(cs.drop_last()[i] == cs[i]);
        lemma_items_some(s, cs.drop_last(), q, i);
    } else {
        assert(cs.drop_last()[i] == cs[i]);
        assert(cs.drop_last()[j] == cs[j]);
        lemma_items_two(s, cs.drop_last(), q, i, j);
    }
}

/// Uniqueness enforcement: a parent with two or more children satisfying the
/// nested projection's filter, and none failing, reads through `Child` as the
/// `MoreThanOne` error naming the parent and the nested projection.
pub proof fn law_child_uniqueness(s: StoreV, e: u64, q: ProjV, i: int, j: int)
    requires
        s.has_entity(e),
        0 <= i < j < kids(s, e).len(),
        is_match(s, kids(s, e)[i], q),
        is_match(s, kids(s, e)[j], q),
        forall|k: int| 0 <= k < kids(s, e).len() ==> !(to_ser_spec(
            s,
            #[trigger] kids(s, e)[k],
            q,
        ) is Err),
    ensures
        to_ser_spec(s, e, ProjV::Solo(Box::new(q))) == Result::<Option<DocV>, ErrV>::Err(
            ErrV::MoreThanOne { parent: e, ty: label_v(q) },
        ),
{
    let cs = kids(s, e);
    let items = child_items(s, cs, q);
    lemma_items_two(s, cs, q, i, j);
    lemma_items_ok(s, cs, q);
    lemma_find_err_all_ok(items);
    assert(solo_of(items, e, label_v(q)) == Result::<Option<DocV>, ErrV>::Err(
        ErrV::MoreThanOne { parent: e, ty: label_v(q) },
    ));
}

/// The first match of a child list, and the items before it.
proof fn lemma_items_first(s: StoreV, cs: Seq<u64>, q: ProjV, i: int, d: DocV)
    requires
        0 <= i < cs.len(),
        forall|k: int| 0 <= k < i ==> to_ser_spec(s, #[trigger] cs[k], q) == Result::<
            Option<DocV>,
            ErrV,
        >::Ok(Option::None),
        to_ser_spec(s, cs[i], q) == Result::<Option<DocV>, ErrV>::Ok(Option::Some(d)),
    ensures
        child_items(s, cs, q).len() >= 1,
        child_items(s, cs, q)[0] == Result::<DocV, ErrV>::Ok(d),
    decreases cs.len(),
{
    if i == cs.len() - 1 {
        assert(cs.last() == cs[i]);
        assert forall|k: int|
            0 <= k < cs.drop_last().len() implies to_ser_spec(
            s,
            #[trigger] cs.drop_last()[k],
            q,
        ) == Result::<Option<DocV>, ErrV>::Ok(Option::None) by {
            assert(cs.drop_last()[k] == cs[k]);
        }
        lemma_items_none(s, cs.drop_last(), q);
        assert(child_items(s, cs, q) =~= ser_item(to_ser_spec(s, cs.last(), q)));
    } else {
        assert forall|k: int|
            0 <= k < i implies to_ser_spec(s, #[trigger] cs.drop_last()[k], q) == Result::<
            Option<DocV>,
            ErrV,
        >::Ok(Option::None) by {
            assert(cs.drop_last()[k] == cs[k]);
        }
        assert(cs.drop_last()[i] == cs[i]);
        lemma_items_first(s, cs.drop_last(), q, i, d);
        let rec = child_items(s, cs.drop_last(), q);
        assert(child_items(s, cs, q)[0] == rec[0]);
    }
}

/// Unchecked reads return the first match without validating uniqueness:
/// whatever matches or fails after the first match is never consulted.
pub proof fn law_child_unchecked_first(s: StoreV, e: u64, q: ProjV, i: int, d: DocV)
    requires
        s.has_entity(e),
        0 <= i < kids(s, e).len(),
        forall|k: int| 0 <= k < i ==> to_ser_spec(s, #[trigger] kids(s, e)[k], q) == Result::<
            Option<DocV>,
            ErrV,
        >::Ok(Option::None),
        to_ser_spec(s, kids(s, e)[i], q) == Result::<Option<DocV>, ErrV>::Ok(Option::Some(d)),
    ensures
        to_ser_spec(s, e, ProjV::SoloFirst(Box::new(q))) == Result::<Option<DocV>, ErrV>::Ok(
            Option::Some(d),
        ),
{
    lemma_items_first(s, kids(s, e), q, i, d);
}

/// Optional semantics: on an entity none of whose children satisfies the
/// nested projection, `Child` reads as absence, `ChildUnchecked` as absence,
/// and `ChildVec` as the empty sequence, all without error.
pub proof fn law_optional_children(s: StoreV, e: u64, q: ProjV)
    requires
        s.has_entity(e),
        forall|k: int| 0 <= k < kids(s, e).len() ==> to_ser_spec(
            s,
            #[trigger] kids(s, e)[k],
            q,
        ) == Result::<Option<DocV>, ErrV>::Ok(Option::None),
    ensures
        to_ser_spec(s, e, ProjV::Solo(Box::new(q))) == Result::<Option<DocV>, ErrV>::Ok(
            Option::None,
        ),
        to_ser_spec(s, e, ProjV::SoloFirst(Box::new(q))) == Result::<Option<DocV>, ErrV>::Ok(
            Option::None,
        ),
        to_ser_spec(s, e, ProjV::ManyOf(Box::new(q))) == Result::<Option<DocV>, ErrV>::Ok(
            Option::Some(DocV::List(Seq::empty())),
        ),
{
    let cs = kids(s, e);
    lemma_items_none(s, cs, q);
    let items = child_items(s, cs, q);
    assert(find_err(items) is None);
    assert(oks(items) =~= Seq::<DocV>::empty());
}

/// Optional semantics at the entity itself: a projection reading as absent
/// wraps through `Maybe` into a present-but-empty document, so a `Maybe`
/// field is never itself missing; a present document passes through.
pub proof fn law_maybe_present_empty(s: StoreV, e: u64, q: ProjV)
    requires
        to_ser_spec(s, e, q) == Result::<Option<DocV>, ErrV>::Ok(Option::<DocV>::None),
    ensures
        to_ser_spec(s, e, ProjV::Opt(Box::new(q))) == Result::<Option<DocV>, ErrV>::Ok(
            Option::Some(DocV::Null),
        ),
{
}

/// Optional semantics on decode: an empty `Maybe` document skips entirely,
/// writing nothing and spawning nothing.
pub proof fn law_maybe_decode_skips(
    s: StoreV,
    reg: Map<(u64, Seq<char>), u64>,
    e: u64,
    q: ProjV,
)
    ensures
        from_de_spec(s, reg, e, ProjV::Opt(Box::new(q)), DocV::Null) == (
            s,
            Result::<(), ErrV>::Ok(()),
        ),
{
}

/// Type-tag resolution, the reconstruction direction: decoding the externally
/// tagged document written for a tagged value, inside a scope whose registry
/// holds that (trait, variant) registration, reconstructs a value whose
/// re-serialization is the identical document.
pub proof fn law_tagged_round_trip(
    reg: Map<(u64, Seq<char>), u64>,
    trait_id: u64,
    t: TypeTaggedV,
)
    requires
        reg.dom().contains((trait_id, t.tag)),
    ensures
        decode_tagged_spec(true, reg, trait_id, value_doc(ValueV::Tagged(t))) == Result::<
            TypeTaggedV,
            ErrV,
        >::Ok(t),
        value_doc(ValueV::Tagged(t)) == value_doc(
            ValueV::Tagged(
                decode_tagged_spec(true, reg, trait_id, value_doc(ValueV::Tagged(t)))->Ok_0,
            ),
        ),
{
    let d = value_doc(ValueV::Tagged(t));
    assert(d matches DocV::Dict(prs) && prs.len() == 1 && prs[0] == (
        DocV::Str(t.tag),
        t.payload,
    ));
}

/// Type-tag resolution, the failure directions: decoding with no binding at
/// all fails with `ScopeError` before the registry is ever consulted, and a
/// bound scope whose registry lacks the variant fails with `UnregisteredTag`
/// naming the variant.
pub proof fn law_tagged_failures(reg: Map<(u64, Seq<char>), u64>, trait_id: u64, t: TypeTaggedV)
    requires
        !reg.dom().contains((trait_id, t.tag)),
    ensures
        decode_tagged_spec(false, reg, trait_id, value_doc(ValueV::Tagged(t))) == Result::<
            TypeTaggedV,
            ErrV,
        >::Err(ErrV::ScopeError),
        decode_tagged_spec(true, reg, trait_id, value_doc(ValueV::Tagged(t))) == Result::<
            TypeTaggedV,
            ErrV,
        >::Err(ErrV::UnregisteredTag { tag: t.tag }),
{
    let d = value_doc(ValueV::Tagged(t));
    assert(d matches DocV::Dict(prs) && prs.len() == 1 && prs[0] == (
        DocV::Str(t.tag),
        t.payload,
    ));
}

/// Registering a duplicate variant name overwrites silently: the last writer
/// wins, and every other registration is untouched.
pub proof fn law_register_last_wins(
    reg: Map<(u64, Seq<char>), u64>,
    key: (u64, Seq<char>),
    first: u64,
    second: u64,
)
    ensures
        reg.insert(key, first).insert(key, second) == reg.insert(key, second),
        forall|k2: (u64, Seq<char>)|
            k2 != key && reg.dom().contains(k2) ==> reg.insert(key, first).insert(
                key,
                second,
            )[k2] == reg[k2],
{
    assert(reg.insert(key, first).insert(key, second) =~= reg.insert(key, second));
}


// ---------------------------------------------------------------------------
// Round trip: a saved leaf-composite document, loaded onto an entity,
// re-reads as the identical document.
// ---------------------------------------------------------------------------

/// A field that reads one slot of the entity itself.
pub open spec fn leaf_field(q: ProjV) -> bool {
    q matches ProjV::Slot { .. } || q matches ProjV::Tagged { .. }
}

pub open spec fn field_tid(q: ProjV) -> u64 {
    match q {
        ProjV::Slot { type_id } => type_id,
        ProjV::Tagged { type_id, .. } => type_id,
        _ => 0,
    }
}

/// A composite whose fields each read one slot, under pairwise distinct slot
/// types and field names, one of them the composite's own primary slot. The
/// round-trip law holds of this class: with overlapping slot types, or a
/// primary that no field writes, reloading need not reproduce the document.
pub open spec fn leaf_object(p: ProjV) -> bool {
    match p {
        ProjV::Object { primary, fields, .. } => {
            &&& forall|k: int| 0 <= k < fields.len() ==> leaf_field((#[trigger] fields[k]).1)
            &&& forall|k1: int, k2: int|
                0 <= k1 < fields.len() && 0 <= k2 < fields.len() && k1 != k2 ==> field_tid(
                    (#[trigger] fields[k1]).1,
                ) != field_tid((#[trigger] fields[k2]).1)
            &&& forall|k1: int, k2: int|
                0 <= k1 < fields.len() && 0 <= k2 < fields.len() && k1 != k2 ==> (
                #[trigger] fields[k1]).0 != (#[trigger] fields[k2]).0
            &&& exists|k: int|
                0 <= k < fields.len() && field_tid((#[trigger] fields[k]).1) == primary
        },
        _ => false,
    }
}

/// The entity record holding a live handle.
pub open spec fn ent_of(s: StoreV, e: u64) -> EntityV {
    s.entities[s.ent_index(e)]
}

/// The slot value a leaf field's decode writes for a field document.
pub open spec fn written_val(q: ProjV, fd: DocV) -> ValueV {
    match q {
        ProjV::Tagged { .. } => match tagged_parts(fd) {
            Option::Some((tag, payload)) => ValueV::Tagged(TypeTaggedV { tag, payload }),
            Option::None => ValueV::Plain(fd),
        },
        _ => ValueV::Plain(fd),
    }
}

/// Replacing a live entity's record, handle kept, preserves well-formedness
/// and leaves every other entity alone.
proof fn lemma_update_entity(s: StoreV, e: u64, ent2: EntityV)
    requires
        s.wf(),
        s.has_entity(e),
        ent2.id == e,
        crate::store::unique_slot_keys(ent2.slots),
    ensures
        s.update_entity(e, ent2).wf(),
        s.update_entity(e, ent2).has_entity(e),
        s.update_entity(e, ent2).find_entity(e) == Option::Some(ent2),
        s.update_entity(e, ent2).next == s.next,
        s.update_entity(e, ent2).entities.len() == s.entities.len(),
        forall|j: int|
            0 <= j < s.entities.len() && j != s.ent_index(e) ==> s.update_entity(
                e,
                ent2,
            ).entities[j] == s.entities[j],
        s.update_entity(e, ent2).entities[s.ent_index(e)] == ent2,
{
    let idx = s.ent_index(e);
    assert(s.entities[idx].id == e);
    let s1 = s.update_entity(e, ent2);
    assert(s1.entities[idx] == ent2);
    assert forall|i: int, j: int|
        0 <= i < s1.entities.len() && 0 <= j < s1.entities.len() && i != j implies (
    #[trigger] s1.entities[i]).id != (#[trigger] s1.entities[j]).id by {
        assert(s1.entities[i].id == s.entities[i].id);
        assert(s1.entities[j].id == s.entities[j].id);
    }
    assert(s1.has_entity(e));
    let k2 = s1.ent_index(e);
    assert(s1.entities[k2].id == e);
    if k2 != idx {
        assert(s.entities[k2].id == e);
    }
    assert(s1.find_entity(e) == Option::Some(ent2));
}

/// What a successful composite decode with leaf fields leaves behind: every
/// field's slot holds the value written for its looked-up field document, and
/// every other slot of the entity is untouched.
proof fn lemma_obj_de_state(
    s: StoreV,
    reg: Map<(u64, Seq<char>), u64>,
    e: u64,
    flds: Seq<(Seq<char>, ProjV)>,
    prs: Seq<(DocV, DocV)>,
    name: Seq<char>,
    i: int,
)
    requires
        s.wf(),
        s.has_entity(e),
        0 <= i <= flds.len(),
        forall|k: int| i <= k < flds.len() ==> leaf_field((#[trigger] flds[k]).1),
        forall|k1: int, k2: int|
            i <= k1 < flds.len() && i <= k2 < flds.len() && k1 != k2 ==> field_tid(
                (#[trigger] flds[k1]).1,
            ) != field_tid((#[trigger] flds[k2]).1),
        obj_de(s, reg, e, flds, prs, name, i).1 == Result::<(), ErrV>::Ok(()),
    ensures
        obj_de(s, reg, e, flds, prs, name, i).0.wf(),
        obj_de(s, reg, e, flds, prs, name, i).0.has_entity(e),
        obj_de(s, reg, e, flds, prs, name, i).0.next == s.next,
        obj_de(s, reg, e, flds, prs, name, i).0.entities.len() == s.entities.len(),
        forall|j: int|
            0 <= j < s.entities.len() && j != s.ent_index(e) ==> obj_de(
                s,
                reg,
                e,
                flds,
                prs,
                name,
                i,
            ).0.entities[j] == s.entities[j],
        forall|k: int| i <= k < flds.len() ==> dict_lookup(prs, (#[trigger] flds[k]).0) is Some,
        forall|k: int|
            (i <= k < flds.len() && (#[trigger] flds[k]).1 matches ProjV::Tagged { .. })
                ==> tagged_parts(dict_lookup(prs, flds[k].0)->Some_0) is Some,
        forall|k: int|
            i <= k < flds.len() ==> ent_of(obj_de(s, reg, e, flds, prs, name, i).0, e).slot(
                field_tid((#[trigger] flds[k]).1),
            ) == Option::Some(written_val(flds[k].1, dict_lookup(prs, flds[k].0)->Some_0)),
        forall|tid: u64|
            (forall|k: int| i <= k < flds.len() ==> field_tid((#[trigger] flds[k]).1) != tid)
                ==> ent_of(obj_de(s, reg, e, flds, prs, name, i).0, e).slot(tid) == ent_of(
                s,
                e,
            ).slot(tid),
    decreases flds.len() - i,
{
    let out = obj_de(s, reg, e, flds, prs, name, i);
    if i < flds.len() {
        let fd_opt = dict_lookup(prs, flds[i].0);
        assert(fd_opt is Some);
        let fd = fd_opt->Some_0;
        let q = flds[i].1;
        let tid = field_tid(q);
        let step = from_de_spec(s, reg, e, q, fd);
        assert(step.1 == Result::<(), ErrV>::Ok(()));
        let ent = ent_of(s, e);
        assert(s.find_entity(e) == Option::Some(ent));
        let wv = written_val(q, fd);
        let ent2 = ent.with_slot(tid, wv);
        if q matches ProjV::Tagged { .. } {
            assert(tagged_parts(fd) is Some);
        }
        assert(step.0 == s.update_entity(e, ent2));
        lemma_set_slot_unique(ent.slots, tid, wv);
        lemma_update_entity(s, e, ent2);
        let s1 = step.0;
        assert(ent_of(s1, e) == ent2);
        assert(out == obj_de(s1, reg, e, flds, prs, name, i + 1));
        lemma_obj_de_state(s1, reg, e, flds, prs, name, i + 1);
        assert(s1.ent_index(e) == s.ent_index(e)) by {
            let k1 = s1.ent_index(e);
            assert(s1.entities[k1].id == e);
            if k1 != s.ent_index(e) {
                assert(s1.entities[k1] == s.entities[k1]);
            }
        }
        assert forall|j: int|
            0 <= j < s.entities.len() && j != s.ent_index(e) implies out.0.entities[j]
            == s.entities[j] by {
            assert(out.0.entities[j] == s1.entities[j]);
            assert(s1.entities[j] == s.entities[j]);
        }
        assert forall|k: int|
            i <= k < flds.len() implies ent_of(out.0, e).slot(field_tid((#[trigger] flds[k]).1))
            == Option::Some(written_val(flds[k].1, dict_lookup(prs, flds[k].0)->Some_0)) by {
            if k == i {
                assert forall|k2: int|
                    i + 1 <= k2 < flds.len() implies field_tid((#[trigger] flds[k2]).1)
                    != tid by {}
                assert(ent_of(out.0, e).slot(tid) == ent_of(s1, e).slot(tid));
                assert(ent2.slot(tid) == Option::Some(wv));
            }
        }
        assert forall|tid2: u64|
            (forall|k: int| i <= k < flds.len() ==> field_tid((#[trigger] flds[k]).1)
                != tid2) implies ent_of(out.0, e).slot(tid2) == ent_of(s, e).slot(tid2) by {
            assert(field_tid(flds[i].1) != tid2);
            assert(ent2.slot(tid2) == ent.slot(tid2));
        }
    }
}

/// Looking a declared field's name up in its composite's own saved document
/// finds that field's value.
proof fn lemma_lookup_canonical(
    prs: Seq<(DocV, DocV)>,
    flds: Seq<(Seq<char>, ProjV)>,
    k: int,
)
    requires
        prs.len() == flds.len(),
        forall|t: int| 0 <= t < flds.len() ==> (#[trigger] prs[t]).0 == DocV::Str(flds[t].0),
        forall|k1: int, k2: int|
            0 <= k1 < flds.len() && 0 <= k2 < flds.len() && k1 != k2 ==> (
            #[trigger] flds[k1]).0 != (#[trigger] flds[k2]).0,
        0 <= k < flds.len(),
    ensures
        dict_lookup(prs, flds[k].0) == Option::Some(prs[k].1),
    decreases k,
{
    if k == 0 {
        assert(prs[0].0 == DocV::Str(flds[0].0));
    } else {
        assert(prs[0].0 == DocV::Str(flds[0].0));
        assert(flds[0].0 != flds[k].0);
        let prs2 = prs.drop_first();
        let flds2 = flds.drop_first();
        assert forall|t: int|
            0 <= t < flds2.len() implies (#[trigger] prs2[t]).0 == DocV::Str(flds2[t].0) by {
            assert(prs2[t] == prs[t + 1]);
            assert(flds2[t] == flds[t + 1]);
        }
        assert forall|k1: int, k2: int|
            0 <= k1 < flds2.len() && 0 <= k2 < flds2.len() && k1 != k2 implies (
        #[trigger] flds2[k1]).0 != (#[trigger] flds2[k2]).0 by {
            assert(flds2[k1] == flds[k1 + 1]);
            assert(flds2[k2] == flds[k2 + 1]);
        }
        lemma_lookup_canonical(prs2, flds2, k - 1);
        assert(flds2[k - 1] == flds[k]);
        assert(prs2[k - 1] == prs[k]);
    }
}

/// A successful composite read emits exactly its declared fields, in order,
/// each under its declared name.
proof fn lemma_fields_fold_shape(
    s: StoreV,
    e: u64,
    flds: Seq<(Seq<char>, ProjV)>,
    name: Seq<char>,
    i: int,
    acc: Seq<(DocV, DocV)>,
    prs: Seq<(DocV, DocV)>,
)
    requires
        0 <= i <= flds.len(),
        fields_fold(s, e, flds, name, i, acc) == Result::<Seq<(DocV, DocV)>, ErrV>::Ok(prs),
    ensures
        prs.len() == acc.len() + flds.len() - i,
        forall|t: int| 0 <= t < acc.len() ==> #[trigger] prs[t] == acc[t],
        forall|k: int|
            i <= k < flds.len() ==> (#[trigger] prs[acc.len() + k - i]).0 == DocV::Str(flds[k].0),
    decreases flds.len() - i,
{
    if i < flds.len() {
        let r = to_ser_spec(s, e, flds[i].1);
        assert(r matches Result::Ok(Option::Some(_)));
        let d = r->Ok_0->Some_0;
        let acc2 = acc.push((DocV::Str(flds[i].0), d));
        lemma_fields_fold_shape(s, e, flds, name, i + 1, acc2, prs);
        assert(prs[acc.len() as int] == acc2[acc.len() as int]);
        assert forall|k: int|
            i <= k < flds.len() implies (#[trigger] prs[acc.len() + k - i]).0 == DocV::Str(
            flds[k].0,
        ) by {
            if k == i {
                assert(prs[acc.len() as int] == acc2[acc.len() as int]);
            } else {
                assert(prs[acc2.len() + k - (i + 1)].0 == DocV::Str(flds[k].0));
                assert(acc2.len() + k - (i + 1) == acc.len() + k - i);
            }
        }
        assert forall|t: int| 0 <= t < acc.len() implies #[trigger] prs[t] == acc[t] by {
            assert(prs[t] == acc2[t]);
        }
    }
}

/// Re-reading the fields after a decode that wrote them yields the decoded
/// pairs again.
proof fn lemma_fields_reser(
    s2: StoreV,
    e: u64,
    flds: Seq<(Seq<char>, ProjV)>,
    name: Seq<char>,
    prs: Seq<(DocV, DocV)>,
    i: int,
    acc: Seq<(DocV, DocV)>,
)
    requires
        s2.wf(),
        s2.has_entity(e),
        prs.len() == flds.len(),
        0 <= i <= flds.len(),
        forall|t: int| 0 <= t < flds.len() ==> (#[trigger] prs[t]).0 == DocV::Str(flds[t].0),
        forall|k: int| 0 <= k < flds.len() ==> leaf_field((#[trigger] flds[k]).1),
        forall|k: int|
            (0 <= k < flds.len() && (#[trigger] flds[k]).1 matches ProjV::Tagged { .. })
                ==> tagged_parts(prs[k].1) is Some,
        forall|k: int|
            0 <= k < flds.len() ==> ent_of(s2, e).slot(field_tid((#[trigger] flds[k]).1))
                == Option::Some(written_val(flds[k].1, prs[k].1)),
    ensures
        fields_fold(s2, e, flds, name, i, acc) == Result::<Seq<(DocV, DocV)>, ErrV>::Ok(
            acc + prs.subrange(i, prs.len() as int),
        ),
    decreases flds.len() - i,
{
    if i >= flds.len() {
        assert(acc + prs.subrange(i, prs.len() as int) =~= acc);
    } else {
        let q = flds[i].1;
        let tid = field_tid(q);
        let wv = written_val(q, prs[i].1);
        assert(s2.find_entity(e) == Option::Some(ent_of(s2, e)));
        assert(ent_of(s2, e).slot(tid) == Option::Some(wv));
        assert(value_doc(wv) == prs[i].1) by {
            match q {
                ProjV::Tagged { .. } => {
                    let (tag, payload) = tagged_parts(prs[i].1)->Some_0;
                    assert(prs[i].1 matches DocV::Dict(ps) && ps.len() == 1 && ps[0] == (
                        DocV::Str(tag),
                        payload,
                    ));
                    assert(prs[i].1->Dict_0 =~= seq![(DocV::Str(tag), payload)]);
                },
                _ => {},
            }
        }
        assert(to_ser_spec(s2, e, q) == leaf_ser(s2, e, tid));
        assert(leaf_ser(s2, e, tid) == Result::<Option<DocV>, ErrV>::Ok(
            Option::Some(prs[i].1),
        ));
        let acc2 = acc.push((DocV::Str(flds[i].0), prs[i].1));
        assert(acc2 =~= acc.push(prs[i])) by {
            assert(prs[i].0 == DocV::Str(flds[i].0));
        }
        lemma_fields_reser(s2, e, flds, name, prs, i + 1, acc2);
        assert(acc2 + prs.subrange(i + 1, prs.len() as int) =~= acc + prs.subrange(
            i,
            prs.len() as int,
        ));
    }
}

/// A document of exactly a composite's declared shape: its fields' names, in
/// declared order.
pub open spec fn canonical_object_doc(p: ProjV, d: DocV) -> bool {
    match p {
        ProjV::Object { fields, .. } => {
            &&& d matches DocV::Dict(prs)
            &&& d->Dict_0.len() == fields.len()
            &&& forall|k: int|
                0 <= k < fields.len() ==> (#[trigger] d->Dict_0[k]).0 == DocV::Str(fields[k].0)
        },
        _ => false,
    }
}

/// Decoding a canonical document onto a live entity and re-reading it yields
/// the document again, and leaves the entity matching the filter.
proof fn lemma_decode_reser(
    s_dst: StoreV,
    reg: Map<(u64, Seq<char>), u64>,
    e_dst: u64,
    p: ProjV,
    d: DocV,
)
    requires
        leaf_object(p),
        canonical_object_doc(p, d),
        s_dst.wf(),
        s_dst.has_entity(e_dst),
        from_de_spec(s_dst, reg, e_dst, p, d).1 == Result::<(), ErrV>::Ok(()),
    ensures
        to_ser_spec(from_de_spec(s_dst, reg, e_dst, p, d).0, e_dst, p) == Result::<
            Option<DocV>,
            ErrV,
        >::Ok(Option::Some(d)),
        matches_filter(ent_of(from_de_spec(s_dst, reg, e_dst, p, d).0, e_dst), p),
{
    let name = p->Object_name;
    let primary = p->Object_primary;
    let flds = p->Object_fields;
    let prs = d->Dict_0;
    let s2 = from_de_spec(s_dst, reg, e_dst, p, d).0;
    assert(from_de_spec(s_dst, reg, e_dst, p, d) == obj_de(
        s_dst,
        reg,
        e_dst,
        flds,
        prs,
        name,
        0,
    ));
    lemma_obj_de_state(s_dst, reg, e_dst, flds, prs, name, 0);
    assert forall|k: int|
        0 <= k < flds.len() implies ent_of(s2, e_dst).slot(field_tid((#[trigger] flds[k]).1))
        == Option::Some(written_val(flds[k].1, prs[k].1)) && ((#[trigger] flds[k]).1 matches
    ProjV::Tagged { .. } ==> tagged_parts(prs[k].1) is Some) by {
        lemma_lookup_canonical(prs, flds, k);
    }
    let k0 = choose|k: int| 0 <= k < flds.len() && field_tid((#[trigger] flds[k]).1) == primary;
    assert(ent_of(s2, e_dst).slot(primary) is Some);
    assert(ent_of(s2, e_dst).has_slot(primary)) by {
        assert(crate::store::get_slot(ent_of(s2, e_dst).slots, primary) is Some);
    }
    assert(s2.find_entity(e_dst) == Option::Some(ent_of(s2, e_dst)));
    lemma_fields_reser(s2, e_dst, flds, name, prs, 0, Seq::empty());
    assert(Seq::empty() + prs.subrange(0, prs.len() as int) =~= prs);
}

/// Round trip: a document saved from a leaf-composite projection, decoded
/// onto any live entity of a well-formed store, re-reads as the identical
/// document, whatever writes the decode performed along the way.
pub proof fn law_object_round_trip(
    s_src: StoreV,
    s_dst: StoreV,
    reg: Map<(u64, Seq<char>), u64>,
    e_src: u64,
    e_dst: u64,
    p: ProjV,
    d: DocV,
)
    requires
        leaf_object(p),
        to_ser_spec(s_src, e_src, p) == Result::<Option<DocV>, ErrV>::Ok(Option::Some(d)),
        s_dst.wf(),
        s_dst.has_entity(e_dst),
        from_de_spec(s_dst, reg, e_dst, p, d).1 == Result::<(), ErrV>::Ok(()),
    ensures
        to_ser_spec(from_de_spec(s_dst, reg, e_dst, p, d).0, e_dst, p) == Result::<
            Option<DocV>,
            ErrV,
        >::Ok(Option::Some(d)),
{
    lemma_saved_doc_canonical(s_src, e_src, p, d);
    lemma_decode_reser(s_dst, reg, e_dst, p, d);
}

/// What a composite read emits is of the composite's canonical shape.
proof fn lemma_saved_doc_canonical(s_src: StoreV, e_src: u64, p: ProjV, d: DocV)
    requires
        leaf_object(p),
        to_ser_spec(s_src, e_src, p) == Result::<Option<DocV>, ErrV>::Ok(Option::Some(d)),
    ensures
        canonical_object_doc(p, d),
{
    let name = p->Object_name;
    let flds = p->Object_fields;
    let fr = fields_fold(s_src, e_src, flds, name, 0, Seq::empty());
    assert(fr matches Result::Ok(_));
    let prs = fr->Ok_0;
    assert(d == DocV::Dict(prs));
    lemma_fields_fold_shape(s_src, e_src, flds, name, 0, Seq::empty(), prs);
    assert(prs.len() == flds.len());
    assert forall|t: int|
        0 <= t < flds.len() implies (#[trigger] prs[t]).0 == DocV::Str(flds[t].0) by {
        let z = Seq::<(DocV, DocV)>::empty().len() as int;
        assert(prs[z + t - 0].0 == DocV::Str(flds[t].0));
        assert(z + t - 0 == t);
    }
}

/// After clearing, nothing matching the filter survives.
proof fn lemma_survivors_clear(s0: StoreV, p: ProjV, i: int, acc: Seq<EntityV>)
    requires
        0 <= i <= s0.entities.len(),
        forall|a: int| 0 <= a < acc.len() ==> !matches_filter(#[trigger] acc[a], p),
    ensures
        forall|a: int|
            0 <= a < survivors(s0.entities, s0, p, i, acc).len() ==> !matches_filter(
                #[trigger] survivors(s0.entities, s0, p, i, acc)[a],
                p,
            ),
    decreases s0.entities.len() - i,
{
    let out = survivors(s0.entities, s0, p, i, acc);
    if i >= s0.entities.len() {
        assert(out == acc);
        assert forall|a: int|
            0 <= a < out.len() implies !matches_filter(#[trigger] out[a], p) by {
            assert(out[a] == acc[a]);
        }
    } else {
        if despawn_target(s0, p, s0.entities[i].id) {
            lemma_survivors_clear(s0, p, i + 1, acc);
            let rec = survivors(s0.entities, s0, p, i + 1, acc);
            assert(out == rec);
            assert forall|a: int|
                0 <= a < out.len() implies !matches_filter(#[trigger] out[a], p) by {
                assert(out[a] == rec[a]);
            }
        } else {
            assert(!matches_filter(s0.entities[i], p)) by {
                if matches_filter(s0.entities[i], p) {
                    assert(crate::driver::despawn_target_upto(
                        s0,
                        p,
                        s0.entities[i].id,
                        s0.entities.len() as int,
                    ));
                }
            }
            let acc2 = acc.push(s0.entities[i]);
            assert forall|a: int|
                0 <= a < acc2.len() implies !matches_filter(#[trigger] acc2[a], p) by {
                if a < acc.len() {
                    assert(acc2[a] == acc[a]);
                } else {
                    assert(acc2[a] == s0.entities[i]);
                }
            }
            lemma_survivors_clear(s0, p, i + 1, acc2);
            let rec = survivors(s0.entities, s0, p, i + 1, acc2);
            assert(out == rec);
            assert forall|a: int|
                0 <= a < out.len() implies !matches_filter(#[trigger] out[a], p) by {
                assert(out[a] == rec[a]);
            }
        }
    }
}

/// Clearing removes every entity currently matching the filter: no survivor
/// of `despawn_bound_objects` satisfies it, so a following load starts from
/// a store with no instances of the object.
pub proof fn law_despawn_clears(s0: StoreV, p: ProjV)
    ensures
        forall|a: int|
            0 <= a < survivors(s0.entities, s0, p, 0, Seq::empty()).len() ==> !matches_filter(
                #[trigger] survivors(s0.entities, s0, p, 0, Seq::empty())[a],
                p,
            ),
{
    lemma_survivors_clear(s0, p, 0, Seq::empty());
}


/// A leaf-composite read depends only on the entity's own record.
proof fn lemma_fields_fold_frame(
    sa: StoreV,
    sb: StoreV,
    e: u64,
    flds: Seq<(Seq<char>, ProjV)>,
    name: Seq<char>,
    i: int,
    acc: Seq<(DocV, DocV)>,
)
    requires
        0 <= i <= flds.len(),
        forall|k: int| 0 <= k < flds.len() ==> leaf_field((#[trigger] flds[k]).1),
        sa.find_entity(e) == sb.find_entity(e),
    ensures
        fields_fold(sa, e, flds, name, i, acc) == fields_fold(sb, e, flds, name, i, acc),
    decreases flds.len() - i,
{
    if i < flds.len() {
        let tid = field_tid(flds[i].1);
        assert(to_ser_spec(sa, e, flds[i].1) == leaf_ser(sa, e, tid));
        assert(to_ser_spec(sb, e, flds[i].1) == leaf_ser(sb, e, tid));
        assert(leaf_ser(sa, e, tid) == leaf_ser(sb, e, tid));
        match to_ser_spec(sa, e, flds[i].1) {
            Result::Err(_) => {},
            Result::Ok(Option::None) => {},
            Result::Ok(Option::Some(d)) => {
                lemma_fields_fold_frame(
                    sa,
                    sb,
                    e,
                    flds,
                    name,
                    i + 1,
                    acc.push((DocV::Str(flds[i].0), d)),
                );
            },
        }
    }
}

/// A leaf-composite read gives equal results in two stores that agree on the
/// entity's record.
proof fn lemma_leaf_ser_frame(sa: StoreV, sb: StoreV, e: u64, p: ProjV)
    requires
        leaf_object(p),
        sa.find_entity(e) == sb.find_entity(e),
    ensures
        to_ser_spec(sa, e, p) == to_ser_spec(sb, e, p),
{
    lemma_fields_fold_frame(
        sa,
        sb,
        e,
        p->Object_fields,
        p->Object_name,
        0,
        Seq::empty(),
    );
}

/// Spawning keeps the store well formed: the fresh handle is new.
proof fn lemma_spawn_wf(s: StoreV)
    requires
        s.wf(),
        s.next < u64::MAX,
    ensures
        s.spawn_next().0.wf(),
        s.spawn_next().0.entities.len() == s.entities.len() + 1,
        forall|j: int|
            0 <= j < s.entities.len() ==> #[trigger] s.spawn_next().0.entities[j]
                == s.entities[j],
        s.spawn_next().0.has_entity(s.next),
        s.spawn_next().0.ent_index(s.next) == s.entities.len(),
        s.spawn_next().0.find_entity(s.next) == Option::Some(
            EntityV { id: s.next, slots: Seq::empty(), children: Seq::empty() },
        ),
        s.spawn_next().0.next == s.next + 1,
{
    let s1 = s.spawn_next().0;
    let fresh = EntityV { id: s.next, slots: Seq::empty(), children: Seq::empty() };
    assert(s1.entities[s.entities.len() as int] == fresh);
    assert forall|i: int, j: int|
        0 <= i < s1.entities.len() && 0 <= j < s1.entities.len() && i != j implies (
    #[trigger] s1.entities[i]).id != (#[trigger] s1.entities[j]).id by {
        if i < s.entities.len() && j < s.entities.len() {
        } else if i < s.entities.len() {
            assert(s1.entities[i] == s.entities[i]);
            assert(s.entities[i].id < s.next);
        } else {
            assert(s1.entities[j] == s.entities[j]);
            assert(s.entities[j].id < s.next);
        }
    }
    assert(s1.has_entity(s.next));
    let k = s1.ent_index(s.next);
    assert(s1.entities[k].id == s.next);
    if k != s.entities.len() {
        assert(s1.entities[k] == s.entities[k]);
        assert(s.entities[k].id < s.next);
    }
}

/// What a successful load leaves behind: the old entities untouched, and one
/// fresh entity per document, each matching the filter and re-reading as its
/// own document.
proof fn lemma_load_fold_state(
    s: StoreV,
    reg: Map<(u64, Seq<char>), u64>,
    p: ProjV,
    ds: Seq<DocV>,
    i: int,
)
    requires
        s.wf(),
        leaf_object(p),
        0 <= i <= ds.len(),
        forall|t: int| i <= t < ds.len() ==> canonical_object_doc(p, #[trigger] ds[t]),
        load_fold(s, reg, p, ds, i).1 == Result::<(), ErrV>::Ok(()),
    ensures
        load_fold(s, reg, p, ds, i).0.wf(),
        load_fold(s, reg, p, ds, i).0.entities.len() == s.entities.len() + (ds.len() - i),
        forall|j: int|
            0 <= j < s.entities.len() ==> #[trigger] load_fold(s, reg, p, ds, i).0.entities[j]
                == s.entities[j],
        forall|t: int|
            0 <= t < ds.len() - i ==> matches_filter(
                #[trigger] load_fold(s, reg, p, ds, i).0.entities[s.entities.len() + t],
                p,
            ) && to_ser_spec(
                load_fold(s, reg, p, ds, i).0,
                load_fold(s, reg, p, ds, i).0.entities[s.entities.len() + t].id,
                p,
            ) == Result::<Option<DocV>, ErrV>::Ok(Option::Some(ds[i + t])),
    decreases ds.len() - i,
{
    let sfin = load_fold(s, reg, p, ds, i).0;
    if i < ds.len() {
        assert(s.next < u64::MAX);
        let s1 = s.spawn_next().0;
        let e = s.spawn_next().1;
        assert(e == s.next);
        lemma_spawn_wf(s);
        let step = from_de_spec(s1, reg, e, p, ds[i]);
        let s2 = step.0;
        match step.1 {
            Result::Err(er) => {
                assert(load_fold(s, reg, p, ds, i).1 == Result::<(), ErrV>::Err(er));
                assert(false);
            },
            Result::Ok(u) => {
                assert(u == ());
                assert(step.1 == Result::<(), ErrV>::Ok(()));
            },
        }
        assert(step.1 == Result::<(), ErrV>::Ok(()));
        lemma_decode_reser(s1, reg, e, p, ds[i]);
        let name = p->Object_name;
        let flds = p->Object_fields;
        let prs = ds[i]->Dict_0;
        assert(step == obj_de(s1, reg, e, flds, prs, name, 0));
        lemma_obj_de_state(s1, reg, e, flds, prs, name, 0);
        let eidx = s1.ent_index(e);
        assert(eidx == s.entities.len());
        assert(s2.entities.len() == s1.entities.len());
        assert forall|j: int|
            0 <= j < s.entities.len() implies #[trigger] s2.entities[j] == s.entities[j] by {
            assert(s2.entities[j] == s1.entities[j]);
        }
        assert(s2.next == s1.next == s.next + 1);
        assert(load_fold(s, reg, p, ds, i) == load_fold(s2, reg, p, ds, i + 1));
        lemma_load_fold_state(s2, reg, p, ds, i + 1);
        assert(sfin == load_fold(s2, reg, p, ds, i + 1).0);
        assert(sfin.entities.len() == s2.entities.len() + (ds.len() - i - 1));
        assert forall|j: int|
            0 <= j < s.entities.len() implies #[trigger] sfin.entities[j] == s.entities[j] by {
            assert(sfin.entities[j] == s2.entities[j]);
        }
        let erec = ent_of(s2, e);
        assert(s2.ent_index(e) == eidx) by {
            let k2 = s2.ent_index(e);
            assert(s2.entities[k2].id == e);
            if k2 != eidx {
                assert(s2.entities[k2] == s1.entities[k2]);
            }
        }
        assert(s2.find_entity(e) == Option::Some(erec));
        assert(sfin.entities[eidx] == erec) by {
            assert(sfin.entities[eidx] == s2.entities[eidx]);
        }
        assert(erec.id == e);
        assert(sfin.has_entity(e));
        assert(sfin.find_entity(e) == Option::Some(erec)) by {
            let k3 = sfin.ent_index(e);
            assert(sfin.entities[k3].id == e);
            assert(k3 == eidx);
        }
        lemma_leaf_ser_frame(sfin, s2, e, p);
        assert forall|t: int|
            0 <= t < ds.len() - i implies matches_filter(
            #[trigger] sfin.entities[s.entities.len() + t],
            p,
        ) && to_ser_spec(sfin, sfin.entities[s.entities.len() + t].id, p) == Result::<
            Option<DocV>,
            ErrV,
        >::Ok(Option::Some(ds[i + t])) by {
            if t == 0 {
                assert(sfin.entities[s.entities.len() as int] == erec);
            } else {
                assert(matches_filter(sfin.entities[s2.entities.len() + (t - 1)], p));
                assert(to_ser_spec(
                    sfin,
                    sfin.entities[s2.entities.len() + (t - 1)].id,
                    p,
                ) == Result::<Option<DocV>, ErrV>::Ok(Option::Some(ds[i + 1 + (t - 1)])));
                assert(s2.entities.len() + (t - 1) == s.entities.len() + t);
                assert(i + 1 + (t - 1) == i + t);
            }
        }
    }
}

/// Every document a save emits is of its projection's canonical shape.
proof fn lemma_save_fold_canonical(s: StoreV, p: ProjV, i: int, acc: Seq<DocV>, ds: Seq<DocV>)
    requires
        leaf_object(p),
        0 <= i <= s.entities.len(),
        save_fold(s, p, i, acc) == Result::<Seq<DocV>, ErrV>::Ok(ds),
        forall|t: int| 0 <= t < acc.len() ==> canonical_object_doc(p, #[trigger] acc[t]),
    ensures
        forall|t: int| 0 <= t < ds.len() ==> canonical_object_doc(p, #[trigger] ds[t]),
    decreases s.entities.len() - i,
{
    if i < s.entities.len() {
        let ent = s.entities[i];
        if !matches_filter(ent, p) {
            lemma_save_fold_canonical(s, p, i + 1, acc, ds);
        } else {
            match to_ser_spec(s, ent.id, p) {
                Result::Err(_) => {},
                Result::Ok(Option::None) => {
                    lemma_save_fold_canonical(s, p, i + 1, acc, ds);
                },
                Result::Ok(Option::Some(d)) => {
                    lemma_saved_doc_canonical(s, ent.id, p, d);
                    let acc2 = acc.push(d);
                    assert forall|t: int|
                        0 <= t < acc2.len() implies canonical_object_doc(
                        p,
                        #[trigger] acc2[t],
                    ) by {
                        if t < acc.len() {
                            assert(acc2[t] == acc[t]);
                        } else {
                            assert(acc2[t] == d);
                        }
                    }
                    lemma_save_fold_canonical(s, p, i + 1, acc2, ds);
                },
            }
        }
    }
}

/// Saving a store whose first entities match nothing and whose remaining
/// entities each re-read as one given document emits exactly those documents.
proof fn lemma_save_fold_loaded(
    sfin: StoreV,
    p: ProjV,
    base: int,
    ds: Seq<DocV>,
    i: int,
    acc: Seq<DocV>,
)
    requires
        0 <= base,
        0 <= i <= sfin.entities.len(),
        base + ds.len() == sfin.entities.len(),
        forall|j: int| 0 <= j < base ==> !matches_filter(#[trigger] sfin.entities[j], p),
        forall|t: int|
            0 <= t < ds.len() ==> matches_filter(#[trigger] sfin.entities[base + t], p)
                && to_ser_spec(sfin, sfin.entities[base + t].id, p) == Result::<
                Option<DocV>,
                ErrV,
            >::Ok(Option::Some(ds[t])),
    ensures
        i <= base ==> save_fold(sfin, p, i, acc) == Result::<Seq<DocV>, ErrV>::Ok(acc + ds),
        i > base ==> save_fold(sfin, p, i, acc) == Result::<Seq<DocV>, ErrV>::Ok(
            acc + ds.subrange(i - base, ds.len() as int),
        ),
    decreases sfin.entities.len() - i,
{
    if i >= sfin.entities.len() {
        if i <= base {
            assert(ds.len() == 0);
            assert(acc + ds =~= acc);
        } else {
            assert(acc + ds.subrange(i - base, ds.len() as int) =~= acc);
        }
    } else if i < base {
        assert(!matches_filter(sfin.entities[i], p));
        lemma_save_fold_loaded(sfin, p, base, ds, i + 1, acc);
        if i + 1 > base {
            assert(ds.subrange(i + 1 - base, ds.len() as int) =~= ds);
        }
    } else {
        let t = i - base;
        assert(sfin.entities[base + t] == sfin.entities[i]);
        assert(matches_filter(sfin.entities[base + t], p));
        assert(to_ser_spec(sfin, sfin.entities[base + t].id, p) == Result::<
            Option<DocV>,
            ErrV,
        >::Ok(Option::Some(ds[t])));
        lemma_save_fold_loaded(sfin, p, base, ds, i + 1, acc.push(ds[t]));
        assert(acc.push(ds[t]) + ds.subrange(t + 1, ds.len() as int) =~= acc + ds.subrange(
            t,
            ds.len() as int,
        ));
        if i <= base {
            assert(ds.subrange(0, ds.len() as int) =~= ds);
        }
    }
}

/// The whole-store round trip: for a leaf-composite projection, saving a
/// store, loading the output into a cleared well-formed store, and saving
/// again reproduces the first save's output exactly.
pub proof fn law_save_load_round_trip(
    s_src: StoreV,
    s_dst: StoreV,
    reg: Map<(u64, Seq<char>), u64>,
    p: ProjV,
    d: DocV,
)
    requires
        leaf_object(p),
        save_spec(s_src, p) == Result::<DocV, ErrV>::Ok(d),
        s_dst.wf(),
        forall|j: int|
            0 <= j < s_dst.entities.len() ==> !matches_filter(#[trigger] s_dst.entities[j], p),
        load_spec(s_dst, reg, p, d).1 == Result::<(), ErrV>::Ok(()),
    ensures
        save_spec(load_spec(s_dst, reg, p, d).0, p) == Result::<DocV, ErrV>::Ok(d),
{
    let fr = save_fold(s_src, p, 0, Seq::empty());
    assert(fr matches Result::Ok(_));
    let ds = fr->Ok_0;
    assert(d == DocV::List(ds));
    assert forall|t: int|
        0 <= t < Seq::<DocV>::empty().len() implies canonical_object_doc(
        p,
        #[trigger] Seq::<DocV>::empty()[t],
    ) by {}
    lemma_save_fold_canonical(s_src, p, 0, Seq::empty(), ds);
    assert(load_spec(s_dst, reg, p, d) == load_fold(s_dst, reg, p, ds, 0));
    let sfin = load_fold(s_dst, reg, p, ds, 0).0;
    lemma_load_fold_state(s_dst, reg, p, ds, 0);
    let base = s_dst.entities.len() as int;
    assert forall|j: int|
        0 <= j < base implies !matches_filter(#[trigger] sfin.entities[j], p) by {
        assert(sfin.entities[j] == s_dst.entities[j]);
    }
    assert forall|t: int|
        0 <= t < ds.len() implies matches_filter(#[trigger] sfin.entities[base + t], p)
        && to_ser_spec(sfin, sfin.entities[base + t].id, p) == Result::<Option<DocV>, ErrV>::Ok(
        Option::Some(ds[t]),
    ) by {
        assert(matches_filter(sfin.entities[s_dst.entities.len() + t], p));
        assert(to_ser_spec(sfin, sfin.entities[s_dst.entities.len() + t].id, p) == Result::<
            Option<DocV>,
            ErrV,
        >::Ok(Option::Some(ds[0 + t])));
    }
    lemma_save_fold_loaded(sfin, p, base, ds, 0, Seq::empty());
    assert(Seq::<DocV>::empty() + ds =~= ds);
}

} // verus!
