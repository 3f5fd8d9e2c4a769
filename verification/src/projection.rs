use vstd::prelude::*;

use crate::document::DocV;
use crate::error::ErrV;
use crate::store::{StoreV, TypeTaggedV, ValueV};

verus! {

/// Extractor that allows the nested projection to be missing: a miss becomes
/// a present-but-empty document rather than an absent field, and decoding an
/// empty document writes nothing.
pub struct Maybe {
    pub inner: Box<Projection>,
}

/// Extractor for a single nested object among a parent's children, validating
/// uniqueness: more than one match is an error.
pub struct Child {
    pub inner: Box<Projection>,
}

/// Extractor for a single nested object among a parent's children, returning
/// the first match without validating uniqueness.
pub struct ChildUnchecked {
    pub inner: Box<Projection>,
}

/// Extractor collecting every matching child, in child-list order, into a
/// sequence; no match yields an empty sequence, not an absence.
pub struct ChildVec {
    pub inner: Box<Projection>,
}

/// Extractor presenting matching children as a key-ordered map: each child
/// matched by the key projection must also carry the value projection.
/// Duplicate keys overwrite silently, last writer wins.
pub struct ChildMap {
    pub key: Box<Projection>,
    pub value: Box<Projection>,
}

/// A composite projected object: a unique name, the primary slot type whose
/// presence is the object's filter, and named fields, each its own projection.
/// Every declared field must be present on read; leaf-level optionality is
/// explicit through `Maybe`.
pub struct Composite {
    pub name: String,
    pub primary: u64,
    pub fields: Vec<(String, Projection)>,
}

/// How one entity (plus descendants) maps to and from a document: a leaf slot
/// read, a tagged trait-object slot, a child extractor, or a composite object.
pub enum Projection {
    Slot { type_id: u64 },
    Tagged { type_id: u64, trait_id: u64 },
    Opt(Maybe),
    Solo(Child),
    SoloFirst(ChildUnchecked),
    ManyOf(ChildVec),
    TableOf(ChildMap),
    Object(Composite),
}

/// Spec shape of a projection.
pub enum ProjV {
    Slot { type_id: u64 },
    Tagged { type_id: u64, trait_id: u64 },
    Opt(Box<ProjV>),
    Solo(Box<ProjV>),
    SoloFirst(Box<ProjV>),
    ManyOf(Box<ProjV>),
    TableOf((Box<ProjV>, Box<ProjV>)),
    Object { name: Seq<char>, primary: u64, fields: Seq<(Seq<char>, ProjV)> },
}

pub open spec fn proj_view(p: Projection) -> ProjV
    decreases p, 0nat,
{
    match p {
        Projection::Slot { type_id } => ProjV::Slot { type_id },
        Projection::Tagged { type_id, trait_id } => ProjV::Tagged { type_id, trait_id },
        Projection::Opt(m) => ProjV::Opt(Box::new(proj_view(*m.inner))),
        Projection::Solo(c) => ProjV::Solo(Box::new(proj_view(*c.inner))),
        Projection::SoloFirst(c) => ProjV::SoloFirst(Box::new(proj_view(*c.inner))),
        Projection::ManyOf(c) => ProjV::ManyOf(Box::new(proj_view(*c.inner))),
        Projection::TableOf(cm) => ProjV::TableOf(
            (Box::new(proj_view(*cm.key)), Box::new(proj_view(*cm.value))),
        ),
        Projection::Object(c) => ProjV::Object {
            name: c.name@,
            primary: c.primary,
            fields: flds_view(c.fields@),
        },
    }
}

pub open spec fn flds_view(s: Seq<(String, Projection)>) -> Seq<(Seq<char>, ProjV)>
    decreases s, 1nat,
{
    if s.len() == 0 {
        Seq::empty()
    } else {
        flds_view(s.drop_last()).push((s.last().0@, proj_view(s.last().1)))
    }
}

impl View for Projection {
    type V = ProjV;

    open spec fn view(&self) -> ProjV {
        proj_view(*self)
    }
}

pub proof fn lemma_flds_view(s: Seq<(String, Projection)>)
    ensures
        flds_view(s).len() == s.len(),
        forall|i: int|
            0 <= i < s.len() ==> flds_view(s)[i] == (s[i].0@, proj_view(s[i].1)),
    decreases s.len(),
{
    if s.len() > 0 {
        lemma_flds_view(s.drop_last());
    }
}

/// A short name for a projection, used when an error must name the type it
/// was reading; composites use their declared unique name.
pub open spec fn label_v(p: ProjV) -> Seq<char> {
    match p {
        ProjV::Object { name, .. } => name,
        ProjV::Slot { .. } => "slot"@,
        ProjV::Tagged { .. } => "trait object"@,
        ProjV::Opt(_) => "optional"@,
        ProjV::Solo(_) => "child"@,
        ProjV::SoloFirst(_) => "child"@,
        ProjV::ManyOf(_) => "children"@,
        ProjV::TableOf(_) => "child map"@,
    }
}

/// The document a stored slot value serializes to: a trait-object value is
/// externally tagged as a single-entry map from its variant name.
pub open spec fn value_doc(v: ValueV) -> DocV {
    match v {
        ValueV::Plain(d) => d,
        ValueV::Tagged(t) => DocV::Dict(seq![(DocV::Str(t.tag), t.payload)]),
    }
}

// ---------------------------------------------------------------------------
// A total order on documents, for the key-ordered `ChildMap` representation.
// ---------------------------------------------------------------------------

pub open spec fn doc_rank(d: DocV) -> int {
    match d {
        DocV::Null => 0,
        DocV::Bool(_) => 1,
        DocV::Int(_) => 2,
        DocV::Str(_) => 3,
        DocV::List(_) => 4,
        DocV::Dict(_) => 5,
    }
}

pub open spec fn str_cmp(a: Seq<char>, b: Seq<char>) -> int
    decreases a.len(),
{
    if a.len() == 0 && b.len() == 0 {
        0
    } else if a.len() == 0 {
        -1
    } else if b.len() == 0 {
        1
    } else if (a[0] as u32) < (b[0] as u32) {
        -1
    } else if (a[0] as u32) > (b[0] as u32) {
        1
    } else {
        str_cmp(a.drop_first(), b.drop_first())
    }
}

/// Three-way structural comparison: ranks order the variants, equal ranks
/// compare contents lexicographically.
pub open spec fn doc_cmp(a: DocV, b: DocV) -> int
    decreases a, 0nat,
{
    if doc_rank(a) != doc_rank(b) {
        if doc_rank(a) < doc_rank(b) {
            -1
        } else {
            1
        }
    } else {
        match (a, b) {
            (DocV::Null, DocV::Null) => 0,
            (DocV::Bool(x), DocV::Bool(y)) => if x == y {
                0
            } else if !x {
                -1
            } else {
                1
            },
            (DocV::Int(x), DocV::Int(y)) => if x < y {
                -1
            } else if x > y {
                1
            } else {
                0
            },
            (DocV::Str(x), DocV::Str(y)) => str_cmp(x, y),
            (DocV::List(x), DocV::List(y)) => docs_cmp(x, y),
            (DocV::Dict(x), DocV::Dict(y)) => dpairs_cmp(x, y),
            _ => 0,
        }
    }
}

pub open spec fn docs_cmp(x: Seq<DocV>, y: Seq<DocV>) -> int
    decreases x, 1nat,
{
    if x.len() == 0 && y.len() == 0 {
        0
    } else if x.len() == 0 {
        -1
    } else if y.len() == 0 {
        1
    } else {
        let c = doc_cmp(x[0], y[0]);
        if c != 0 {
            c
        } else {
            docs_cmp(x.drop_first(), y.drop_first())
        }
    }
}

pub open spec fn dpairs_cmp(x: Seq<(DocV, DocV)>, y: Seq<(DocV, DocV)>) -> int
    decreases x, 1nat,
{
    if x.len() == 0 && y.len() == 0 {
        0
    } else if x.len() == 0 {
        -1
    } else if y.len() == 0 {
        1
    } else {
        let ck = doc_cmp(x[0].0, y[0].0);
        if ck != 0 {
            ck
        } else {
            let cv = doc_cmp(x[0].1, y[0].1);
            if cv != 0 {
                cv
            } else {
                dpairs_cmp(x.drop_first(), y.drop_first())
            }
        }
    }
}

/// Key-ordered insertion with silent overwrite on an equal key: the map
/// extractor's documented duplicate-key semantics.
pub open spec fn dict_insert(pairs: Seq<(DocV, DocV)>, k: DocV, v: DocV) -> Seq<(DocV, DocV)>
    decreases pairs.len(),
{
    if pairs.len() == 0 {
        seq![(k, v)]
    } else {
        let c = doc_cmp(k, pairs[0].0);
        if c < 0 {
            seq![(k, v)] + pairs
        } else if c == 0 {
            seq![(k, v)] + pairs.drop_first()
        } else {
            seq![pairs[0]] + dict_insert(pairs.drop_first(), k, v)
        }
    }
}

pub open spec fn canon_fold(prs: Seq<(DocV, DocV)>, i: int, acc: Seq<(DocV, DocV)>) -> Seq<
    (DocV, DocV),
>
    decreases prs.len() - i,
{
    if !(0 <= i < prs.len()) {
        acc
    } else {
        canon_fold(prs, i + 1, dict_insert(acc, prs[i].0, prs[i].1))
    }
}

/// The canonical, key-ordered, last-writer-wins form of an association list.
pub open spec fn dict_canon(prs: Seq<(DocV, DocV)>) -> Seq<(DocV, DocV)> {
    canon_fold(prs, 0, Seq::empty())
}

// ---------------------------------------------------------------------------
// Serialization: entity to document.
// ---------------------------------------------------------------------------

/// Reading a leaf slot: a missing entity or absent slot is "no instance
/// here", which optional extractors read as absence rather than an error.
pub open spec fn leaf_ser(s: StoreV, e: u64, tid: u64) -> Result<Option<DocV>, ErrV> {
    match s.find_entity(e) {
        Option::None => Result::Ok(Option::None),
        Option::Some(ent) => match ent.slot(tid) {
            Option::None => Result::Ok(Option::None),
            Option::Some(v) => Result::Ok(Option::Some(value_doc(v))),
        },
    }
}

/// One child's contribution to an extractor scan: absence contributes
/// nothing, a document or an error contributes one item.
pub open spec fn ser_item(r: Result<Option<DocV>, ErrV>) -> Seq<Result<DocV, ErrV>> {
    match r {
        Result::Ok(Option::None) => Seq::empty(),
        Result::Ok(Option::Some(d)) => seq![Result::Ok(d)],
        Result::Err(er) => seq![Result::Err(er)],
    }
}

pub open spec fn find_err(items: Seq<Result<DocV, ErrV>>) -> Option<ErrV>
    decreases items.len(),
{
    if items.len() == 0 {
        Option::None
    } else {
        match items[0] {
            Result::Err(er) => Option::Some(er),
            Result::Ok(_) => find_err(items.drop_first()),
        }
    }
}

pub open spec fn oks(items: Seq<Result<DocV, ErrV>>) -> Seq<DocV>
    decreases items.len(),
{
    if items.len() == 0 {
        Seq::empty()
    } else {
        (match items[0] {
            Result::Ok(d) => seq![d],
            Result::Err(_) => Seq::empty(),
        }) + oks(items.drop_first())
    }
}

/// `Child`: at most one match. No item is absence; one item is that item;
/// more than one surfaces the first error among them, or the uniqueness
/// violation naming the parent and the nested projection.
pub open spec fn solo_of(items: Seq<Result<DocV, ErrV>>, parent: u64, ty: Seq<char>) -> Result<
    Option<DocV>,
    ErrV,
> {
    if items.len() == 0 {
        Result::Ok(Option::None)
    } else if items.len() == 1 {
        match items[0] {
            Result::Ok(d) => Result::Ok(Option::Some(d)),
            Result::Err(er) => Result::Err(er),
        }
    } else {
        match find_err(items) {
            Option::Some(er) => Result::Err(er),
            Option::None => Result::Err(ErrV::MoreThanOne { parent, ty }),
        }
    }
}

/// `ChildUnchecked`: the first match, without validating uniqueness.
pub open spec fn first_of(items: Seq<Result<DocV, ErrV>>) -> Result<Option<DocV>, ErrV> {
    if items.len() == 0 {
        Result::Ok(Option::None)
    } else {
        match items[0] {
            Result::Ok(d) => Result::Ok(Option::Some(d)),
            Result::Err(er) => Result::Err(er),
        }
    }
}

/// `ChildVec`: every match in child-list order; the first error aborts.
pub open spec fn many_of(items: Seq<Result<DocV, ErrV>>) -> Result<Option<DocV>, ErrV> {
    match find_err(items) {
        Option::Some(er) => Result::Err(er),
        Option::None => Result::Ok(Option::Some(DocV::List(oks(items)))),
    }
}

pub open spec fn to_ser_spec(s: StoreV, e: u64, p: ProjV) -> Result<Option<DocV>, ErrV>
    decreases p, 0nat, 0nat,
{
    match p {
        ProjV::Slot { type_id } => leaf_ser(s, e, type_id),
        ProjV::Tagged { type_id, .. } => leaf_ser(s, e, type_id),
        ProjV::Opt(q) => match to_ser_spec(s, e, *q) {
            Result::Err(er) => Result::Err(er),
            Result::Ok(Option::None) => Result::Ok(Option::Some(DocV::Null)),
            Result::Ok(Option::Some(d)) => Result::Ok(Option::Some(d)),
        },
        ProjV::Solo(q) => match s.find_entity(e) {
            Option::None => Result::Err(ErrV::EntityMissing { entity: e }),
            Option::Some(ent) => solo_of(child_items(s, ent.children, *q), e, label_v(*q)),
        },
        ProjV::SoloFirst(q) => match s.find_entity(e) {
            Option::None => Result::Err(ErrV::EntityMissing { entity: e }),
            Option::Some(ent) => first_of(child_items(s, ent.children, *q)),
        },
        ProjV::ManyOf(q) => match s.find_entity(e) {
            Option::None => Result::Err(ErrV::EntityMissing { entity: e }),
            Option::Some(ent) => many_of(child_items(s, ent.children, *q)),
        },
        ProjV::TableOf(kv) => match s.find_entity(e) {
            Option::None => Result::Err(ErrV::EntityMissing { entity: e }),
            Option::Some(ent) => match table_fold(
                child_opts(s, ent.children, *kv.0),
                child_opts(s, ent.children, *kv.1),
                label_v(*kv.0),
                label_v(*kv.1),
                0,
                Seq::empty(),
            ) {
                Result::Err(er) => Result::Err(er),
                Result::Ok(prs) => Result::Ok(Option::Some(DocV::Dict(prs))),
            },
        },
        ProjV::Object { name, primary, fields } => match s.find_entity(e) {
            Option::None => Result::Ok(Option::None),
            Option::Some(ent) => if !ent.has_slot(primary) {
                Result::Ok(Option::None)
            } else {
                match fields_fold(s, e, fields, name, 0, Seq::empty()) {
                    Result::Err(er) => Result::Err(er),
                    Result::Ok(prs) => Result::Ok(Option::Some(DocV::Dict(prs))),
                }
            },
        },
    }
}

/// The scan of a child list under one nested projection, in order: one item
/// per child that is present or failing.
pub open spec fn child_items(s: StoreV, cs: Seq<u64>, q: ProjV) -> Seq<Result<DocV, ErrV>>
    decreases q, 1nat, cs.len(),
{
    if cs.len() == 0 {
        Seq::empty()
    } else {
        child_items(s, cs.drop_last(), q) + ser_item(to_ser_spec(s, cs.last(), q))
    }
}

/// Every child's full read result under one nested projection, in order.
pub open spec fn child_opts(s: StoreV, cs: Seq<u64>, q: ProjV) -> Seq<Result<Option<DocV>, ErrV>>
    decreases q, 1nat, cs.len(),
{
    if cs.len() == 0 {
        Seq::empty()
    } else {
        child_opts(s, cs.drop_last(), q).push(to_ser_spec(s, cs.last(), q))
    }
}

/// `ChildMap` assembly: children matched by the key projection must also
/// carry the value projection; pairs land in a key-ordered map, duplicate
/// keys overwriting, last writer wins.
pub open spec fn table_fold(
    ks: Seq<Result<Option<DocV>, ErrV>>,
    vs: Seq<Result<Option<DocV>, ErrV>>,
    kl: Seq<char>,
    vl: Seq<char>,
    i: int,
    acc: Seq<(DocV, DocV)>,
) -> Result<Seq<(DocV, DocV)>, ErrV>
    decreases ks.len() - i,
{
    if !(0 <= i < ks.len()) {
        Result::Ok(acc)
    } else {
        match ks[i] {
            Result::Err(ke) => Result::Err(ke),
            Result::Ok(Option::None) => table_fold(ks, vs, kl, vl, i + 1, acc),
            Result::Ok(Option::Some(kd)) => match vs[i] {
                Result::Err(ve) => Result::Err(ve),
                Result::Ok(Option::None) => Result::Err(ErrV::KeyNoValue { key: kl, value: vl }),
                Result::Ok(Option::Some(vd)) => table_fold(
                    ks,
                    vs,
                    kl,
                    vl,
                    i + 1,
                    dict_insert(acc, kd, vd),
                ),
            },
        }
    }
}

/// Composite assembly: every declared field in order; a field reading as
/// absent is a `FieldMissing` naming the field and the composite.
pub open spec fn fields_fold(
    s: StoreV,
    e: u64,
    flds: Seq<(Seq<char>, ProjV)>,
    name: Seq<char>,
    i: int,
    acc: Seq<(DocV, DocV)>,
) -> Result<Seq<(DocV, DocV)>, ErrV>
    decreases flds, 1nat, flds.len() - i,
{
    if !(0 <= i < flds.len()) {
        Result::Ok(acc)
    } else {
        match to_ser_spec(s, e, flds[i].1) {
            Result::Err(er) => Result::Err(er),
            Result::Ok(Option::None) => Result::Err(
                ErrV::FieldMissing { field: flds[i].0, ty: name },
            ),
            Result::Ok(Option::Some(d)) => fields_fold(
                s,
                e,
                flds,
                name,
                i + 1,
                acc.push((DocV::Str(flds[i].0), d)),
            ),
        }
    }
}

pub proof fn lemma_child_opts(s: StoreV, cs: Seq<u64>, q: ProjV)
    ensures
        child_opts(s, cs, q).len() == cs.len(),
        forall|i: int|
            0 <= i < cs.len() ==> child_opts(s, cs, q)[i] == to_ser_spec(s, cs[i], q),
    decreases cs.len(),
{
    if cs.len() > 0 {
        lemma_child_opts(s, cs.drop_last(), q);
    }
}

// ---------------------------------------------------------------------------
// Deserialization: document back into the store.
// ---------------------------------------------------------------------------

/// The parts of an externally tagged document: a single-entry map whose one
/// key is the variant name.
pub open spec fn tagged_parts(d: DocV) -> Option<(Seq<char>, DocV)> {
    match d {
        DocV::Dict(prs) => if prs.len() == 1 {
            match prs[0].0 {
                DocV::Str(t) => Option::Some((t, prs[0].1)),
                _ => Option::None,
            }
        } else {
            Option::None
        },
        _ => Option::None,
    }
}

/// What one decode does to the store, and how it ends. Failure aborts the
/// enclosing operation; writes made before the failure stay, as there is no
/// partial-success mode and no rollback.
pub open spec fn from_de_spec(
    s: StoreV,
    reg: Map<(u64, Seq<char>), u64>,
    e: u64,
    p: ProjV,
    d: DocV,
) -> (StoreV, Result<(), ErrV>)
    decreases p, 0nat, 0nat,
{
    match p {
        ProjV::Slot { type_id } => match s.find_entity(e) {
            Option::None => (s, Result::Err(ErrV::EntityMissing { entity: e })),
            Option::Some(ent) => (
                s.update_entity(e, ent.with_slot(type_id, ValueV::Plain(d))),
                Result::Ok(()),
            ),
        },
        ProjV::Tagged { type_id, trait_id } => match tagged_parts(d) {
            Option::None => (s, Result::Err(ErrV::ExpectedTagged)),
            Option::Some((tag, payload)) => if !reg.dom().contains((trait_id, tag)) {
                (s, Result::Err(ErrV::UnregisteredTag { tag }))
            } else {
                match s.find_entity(e) {
                    Option::None => (s, Result::Err(ErrV::EntityMissing { entity: e })),
                    Option::Some(ent) => (
                        s.update_entity(
                            e,
                            ent.with_slot(
                                type_id,
                                ValueV::Tagged(TypeTaggedV { tag, payload }),
                            ),
                        ),
                        Result::Ok(()),
                    ),
                }
            },
        },
        ProjV::Opt(q) => if d == DocV::Null {
            (s, Result::Ok(()))
        } else {
            from_de_spec(s, reg, e, *q, d)
        },
        ProjV::Solo(q) => de_child(s, reg, e, *q, d),
        ProjV::SoloFirst(q) => de_child(s, reg, e, *q, d),
        ProjV::ManyOf(q) => match d {
            DocV::List(ds) => many_de(s, reg, e, *q, ds, 0),
            _ => (s, Result::Err(ErrV::ExpectedList)),
        },
        ProjV::TableOf(kv) => match d {
            DocV::Dict(prs) => table_de(s, reg, e, kv, dict_canon(prs), 0),
            _ => (s, Result::Err(ErrV::ExpectedDict)),
        },
        ProjV::Object { name, fields, .. } => match d {
            DocV::Dict(prs) => obj_de(s, reg, e, fields, prs, name, 0),
            _ => (s, Result::Err(ErrV::ExpectedDict)),
        },
    }
}

/// Decoding into a fresh child: spawn, write the nested object into it, then
/// attach it to the parent.
pub open spec fn de_child(
    s: StoreV,
    reg: Map<(u64, Seq<char>), u64>,
    parent: u64,
    q: ProjV,
    d: DocV,
) -> (StoreV, Result<(), ErrV>)
    decreases q, 1nat, 0nat,
{
    if s.next == u64::MAX {
        (s, Result::Err(ErrV::StoreFull))
    } else {
        let (s1, c) = s.spawn_next();
        let (s2, r) = from_de_spec(s1, reg, c, q, d);
        match r {
            Result::Err(er) => (s2, Result::Err(er)),
            Result::Ok(_) => match s2.find_entity(parent) {
                Option::None => (s2, Result::Err(ErrV::EntityMissing { entity: parent })),
                Option::Some(pe) => (
                    s2.update_entity(parent, pe.with_child(c)),
                    Result::Ok(()),
                ),
            },
        }
    }
}

pub open spec fn many_de(
    s: StoreV,
    reg: Map<(u64, Seq<char>), u64>,
    parent: u64,
    q: ProjV,
    ds: Seq<DocV>,
    i: int,
) -> (StoreV, Result<(), ErrV>)
    decreases q, 2nat, ds.len() - i,
{
    if !(0 <= i < ds.len()) {
        (s, Result::Ok(()))
    } else {
        let (s1, r) = de_child(s, reg, parent, q, ds[i]);
        match r {
            Result::Err(er) => (s1, Result::Err(er)),
            Result::Ok(_) => many_de(s1, reg, parent, q, ds, i + 1),
        }
    }
}

pub open spec fn table_de(
    s: StoreV,
    reg: Map<(u64, Seq<char>), u64>,
    parent: u64,
    kv: (Box<ProjV>, Box<ProjV>),
    entries: Seq<(DocV, DocV)>,
    i: int,
) -> (StoreV, Result<(), ErrV>)
    decreases kv, 1nat, entries.len() - i,
{
    if !(0 <= i < entries.len()) {
        (s, Result::Ok(()))
    } else if s.next == u64::MAX {
        (s, Result::Err(ErrV::StoreFull))
    } else {
        let (s1, c) = s.spawn_next();
        let (s2, rk) = from_de_spec(s1, reg, c, *kv.0, entries[i].0);
        match rk {
            Result::Err(er) => (s2, Result::Err(er)),
            Result::Ok(_) => {
                let (s3, rv) = from_de_spec(s2, reg, c, *kv.1, entries[i].1);
                match rv {
                    Result::Err(er) => (s3, Result::Err(er)),
                    Result::Ok(_) => match s3.find_entity(parent) {
                        Option::None => (
                            s3,
                            Result::Err(ErrV::EntityMissing { entity: parent }),
                        ),
                        Option::Some(pe) => table_de(
                            s3.update_entity(parent, pe.with_child(c)),
                            reg,
                            parent,
                            kv,
                            entries,
                            i + 1,
                        ),
                    },
                }
            },
        }
    }
}

/// The first value under a string key of a composite's document.
pub open spec fn dict_lookup(prs: Seq<(DocV, DocV)>, name: Seq<char>) -> Option<DocV>
    decreases prs.len(),
{
    if prs.len() == 0 {
        Option::None
    } else if prs[0].0 == DocV::Str(name) {
        Option::Some(prs[0].1)
    } else {
        dict_lookup(prs.drop_first(), name)
    }
}

pub open spec fn obj_de(
    s: StoreV,
    reg: Map<(u64, Seq<char>), u64>,
    e: u64,
    flds: Seq<(Seq<char>, ProjV)>,
    prs: Seq<(DocV, DocV)>,
    tyname: Seq<char>,
    i: int,
) -> (StoreV, Result<(), ErrV>)
    decreases flds, 1nat, flds.len() - i,
{
    if !(0 <= i < flds.len()) {
        (s, Result::Ok(()))
    } else {
        match dict_lookup(prs, flds[i].0) {
            Option::None => (
                s,
                Result::Err(ErrV::FieldMissing { field: flds[i].0, ty: tyname }),
            ),
            Option::Some(fd) => {
                let (s1, r) = from_de_spec(s, reg, e, flds[i].1, fd);
                match r {
                    Result::Err(er) => (s1, Result::Err(er)),
                    Result::Ok(_) => obj_de(s1, reg, e, flds, prs, tyname, i + 1),
                }
            },
        }
    }
}

} // verus!
