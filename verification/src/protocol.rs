use vstd::pervasive::unreached;
use vstd::prelude::*;
use vstd::string::StrSliceExecFns;

use crate::document::{doc_view, docs_view, lemma_docs_view, lemma_pairs_view, pairs_view, DocV,
    Document};
use crate::error::{ErrV, Error};
use crate::projection::{canon_fold, child_items, child_opts, de_child, dict_canon, dict_insert,
    dict_lookup, doc_cmp, docs_cmp, dpairs_cmp, fields_fold, find_err, from_de_spec, label_v,
    leaf_ser, lemma_child_opts, lemma_flds_view, many_de, obj_de, oks, str_cmp, table_de,
    table_fold, to_ser_spec, value_doc, ProjV, Projection};
use crate::scope::Scope;
use crate::store::{TypeTagged, Value};

verus! {

/// Spec shape of a protocol read result.
pub open spec fn ser_res_view(r: Result<Option<Document>, Error>) -> Result<Option<DocV>, ErrV> {
    match r {
        Result::Ok(Option::None) => Result::Ok(Option::None),
        Result::Ok(Option::Some(d)) => Result::Ok(Option::Some(d@)),
        Result::Err(e) => Result::Err(e@),
    }
}

/// Spec shape of one collected child item.
pub open spec fn item_view(r: Result<Document, Error>) -> Result<DocV, ErrV> {
    match r {
        Result::Ok(d) => Result::Ok(d@),
        Result::Err(e) => Result::Err(e@),
    }
}

pub open spec fn items_view(items: Seq<Result<Document, Error>>) -> Seq<Result<DocV, ErrV>> {
    items.map_values(|r: Result<Document, Error>| item_view(r))
}

/// The short name a read error uses for the projection it was reading.
pub fn label(p: &Projection) -> (r: String)
    ensures
        r@ == label_v(p@),
{
    match p {
        Projection::Object(c) => c.name.clone(),
        Projection::Slot { .. } => "slot".to_owned(),
        Projection::Tagged { .. } => "trait object".to_owned(),
        Projection::Opt(_) => "optional".to_owned(),
        Projection::Solo(_) => "child".to_owned(),
        Projection::SoloFirst(_) => "child".to_owned(),
        Projection::ManyOf(_) => "children".to_owned(),
        Projection::TableOf(_) => "child map".to_owned(),
    }
}

/// The document a slot value serializes to; a tagged value becomes the
/// single-entry externally tagged map.
pub fn value_into_doc(v: Value) -> (d: Document)
    ensures
        d@ == value_doc(v@),
{
    match v {
        Value::Plain(d) => d,
        Value::Tagged(t) => {
            let mut prs: Vec<(Document, Document)> = Vec::new();
            prs.push((Document::Str(t.tag), t.payload));
            proof {
                assert(prs@.drop_last().len() == 0);
                assert(pairs_view(prs@.drop_last()) =~= Seq::<(DocV, DocV)>::empty());
                assert(pairs_view(prs@) =~= seq![(doc_view(prs@[0].0), doc_view(prs@[0].1))]);
            }
            Document::Dict(prs)
        },
    }
}

/// Three-way comparison of character sequences, as the key order uses it.
#[verifier::loop_isolation(false)]
pub fn compare_str(a: &str, b: &str) -> (r: i8)
    ensures
        r as int == str_cmp(a@, b@),
{
    let alen = a.unicode_len();
    let blen = b.unicode_len();
    let mut i: usize = 0;
    proof {
        assert(a@.subrange(0, alen as int) =~= a@);
        assert(b@.subrange(0, blen as int) =~= b@);
    }
    while i < alen && i < blen
        invariant
            i <= alen,
            i <= blen,
            str_cmp(a@, b@) == str_cmp(a@.subrange(i as int, alen as int), b@.subrange(
                i as int,
                blen as int,
            )),
        decreases alen - i,
    {
        let ca = a.get_char(i);
        let cb = b.get_char(i);
        proof {
            let sa = a@.subrange(i as int, alen as int);
            let sb = b@.subrange(i as int, blen as int);
            assert(sa[0] == a@[i as int]);
            assert(sb[0] == b@[i as int]);
            assert(sa.drop_first() =~= a@.subrange(i + 1, alen as int));
            assert(sb.drop_first() =~= b@.subrange(i + 1, blen as int));
        }
        if (ca as u32) < (cb as u32) {
            return -1;
        }
        if (ca as u32) > (cb as u32) {
            return 1;
        }
        i = i + 1;
    }
    proof {
        let sa = a@.subrange(i as int, alen as int);
        let sb = b@.subrange(i as int, blen as int);
        if i == alen && i == blen {
            assert(sa.len() == 0 && sb.len() == 0);
        }
    }
    if alen == blen {
        0
    } else if alen < blen {
        -1
    } else {
        1
    }
}

fn doc_rank_of(d: &Document) -> (r: u8)
    ensures
        r as int == crate::projection::doc_rank(d@),
{
    match d {
        Document::Null => 0,
        Document::Bool(_) => 1,
        Document::Int(_) => 2,
        Document::Str(_) => 3,
        Document::List(_) => 4,
        Document::Dict(_) => 5,
    }
}

/// Three-way structural comparison of documents: the total key order of the
/// map extractor.
#[verifier::loop_isolation(false)]
pub fn compare_docs(a: &Document, b: &Document) -> (r: i8)
    ensures
        r as int == doc_cmp(a@, b@),
    decreases *a,
{
    let ra = doc_rank_of(a);
    let rb = doc_rank_of(b);
    if ra < rb {
        return -1;
    }
    if ra > rb {
        return 1;
    }
    match (a, b) {
        (Document::Null, Document::Null) => 0,
        (Document::Bool(x), Document::Bool(y)) => {
            if *x == *y {
                0
            } else if !*x {
                -1
            } else {
                1
            }
        },
        (Document::Int(x), Document::Int(y)) => {
            if *x < *y {
                -1
            } else if *x > *y {
                1
            } else {
                0
            }
        },
        (Document::Str(x), Document::Str(y)) => compare_str(x.as_str(), y.as_str()),
        (Document::List(x), Document::List(y)) => {
            let ghost xs = docs_view(x@);
            let ghost ys = docs_view(y@);
            proof {
                lemma_docs_view(x@);
                lemma_docs_view(y@);
                assert(xs.subrange(0, xs.len() as int) =~= xs);
                assert(ys.subrange(0, ys.len() as int) =~= ys);
            }
            let mut i: usize = 0;
            while i < x.len() && i < y.len()
                invariant
                    i <= x.len(),
                    i <= y.len(),
                    docs_cmp(xs, ys) == docs_cmp(
                        xs.subrange(i as int, xs.len() as int),
                        ys.subrange(i as int, ys.len() as int),
                    ),
                decreases x@.len() - i,
            {
                proof {
                    assert(decreases_to!(*a => *x));
                    assert(decreases_to!(*x => x@[i as int]));
                }
                let c = compare_docs(&x[i], &y[i]);
                proof {
                    let sx = xs.subrange(i as int, xs.len() as int);
                    let sy = ys.subrange(i as int, ys.len() as int);
                    assert(sx[0] == xs[i as int]);
                    assert(sy[0] == ys[i as int]);
                    assert(sx.drop_first() =~= xs.subrange(i + 1, xs.len() as int));
                    assert(sy.drop_first() =~= ys.subrange(i + 1, ys.len() as int));
                }
                if c != 0 {
                    return c;
                }
                i = i + 1;
            }
            if x.len() == y.len() {
                0
            } else if x.len() < y.len() {
                -1
            } else {
                1
            }
        },
        (Document::Dict(x), Document::Dict(y)) => {
            let ghost xs = pairs_view(x@);
            let ghost ys = pairs_view(y@);
            proof {
                lemma_pairs_view(x@);
                lemma_pairs_view(y@);
                assert(xs.subrange(0, xs.len() as int) =~= xs);
                assert(ys.subrange(0, ys.len() as int) =~= ys);
            }
            let mut i: usize = 0;
            while i < x.len() && i < y.len()
                invariant
                    i <= x.len(),
                    i <= y.len(),
                    dpairs_cmp(xs, ys) == dpairs_cmp(
                        xs.subrange(i as int, xs.len() as int),
                        ys.subrange(i as int, ys.len() as int),
                    ),
                decreases x@.len() - i,
            {
                proof {
                    assert(decreases_to!(*a => *x));
                    assert(decreases_to!(*x => x@[i as int]));
                    assert(decreases_to!(x@[i as int] => x@[i as int].0));
                    assert(decreases_to!(x@[i as int] => x@[i as int].1));
                    let sx = xs.subrange(i as int, xs.len() as int);
                    let sy = ys.subrange(i as int, ys.len() as int);
                    assert(sx[0] == xs[i as int]);
                    assert(sy[0] == ys[i as int]);
                    assert(sx.drop_first() =~= xs.subrange(i + 1, xs.len() as int));
                    assert(sy.drop_first() =~= ys.subrange(i + 1, ys.len() as int));
                }
                let ck = compare_docs(&x[i].0, &y[i].0);
                if ck != 0 {
                    return ck;
                }
                let cv = compare_docs(&x[i].1, &y[i].1);
                if cv != 0 {
                    return cv;
                }
                i = i + 1;
            }
            if x.len() == y.len() {
                0
            } else if x.len() < y.len() {
                -1
            } else {
                1
            }
        },
        _ => unreached(),
    }
}

proof fn lemma_dict_insert_at(prs: Seq<(DocV, DocV)>, k: DocV, v: DocV, pos: int)
    requires
        0 <= pos <= prs.len(),
        forall|j: int| 0 <= j < pos ==> doc_cmp(k, (#[trigger] prs[j]).0) > 0,
        pos < prs.len() ==> doc_cmp(k, prs[pos].0) <= 0,
    ensures
        pos == prs.len() ==> dict_insert(prs, k, v) =~= prs.push((k, v)),
        pos < prs.len() && doc_cmp(k, prs[pos].0) < 0 ==> dict_insert(prs, k, v) =~= prs.subrange(
            0,
            pos,
        ) + seq![(k, v)] + prs.subrange(pos, prs.len() as int),
        pos < prs.len() && doc_cmp(k, prs[pos].0) == 0 ==> dict_insert(prs, k, v) =~= prs.update(
            pos,
            (k, v),
        ),
    decreases prs.len(),
{
    if prs.len() == 0 {
    } else if pos == 0 {
        if doc_cmp(k, prs[0].0) < 0 {
            assert(dict_insert(prs, k, v) =~= prs.subrange(0, 0) + seq![(k, v)] + prs.subrange(
                0,
                prs.len() as int,
            ));
        } else if doc_cmp(k, prs[0].0) == 0 {
            assert(dict_insert(prs, k, v) =~= prs.update(0, (k, v)));
        }
    } else {
        let rest = prs.drop_first();
        assert forall|j: int| 0 <= j < pos - 1 implies doc_cmp(k, (#[trigger] rest[j]).0) > 0 by {
            assert(rest[j] == prs[j + 1]);
        }
        assert(pos - 1 < rest.len() ==> rest[pos - 1] == prs[pos]);
        lemma_dict_insert_at(rest, k, v, pos - 1);
        assert(doc_cmp(k, prs[0].0) > 0);
        if pos == prs.len() {
            assert(dict_insert(prs, k, v) =~= prs.push((k, v)));
        } else if doc_cmp(k, prs[pos].0) < 0 {
            assert(rest.subrange(0, pos - 1) =~= prs.subrange(1, pos));
            assert(rest.subrange(pos - 1, rest.len() as int) =~= prs.subrange(
                pos,
                prs.len() as int,
            ));
            assert(dict_insert(prs, k, v) =~= prs.subrange(0, pos) + seq![(k, v)] + prs.subrange(
                pos,
                prs.len() as int,
            ));
        } else {
            assert(dict_insert(prs, k, v) =~= prs.update(pos, (k, v)));
        }
    }
}

/// Key-ordered insertion into a document map, duplicate keys overwriting.
#[verifier::loop_isolation(false)]
pub fn dict_insert_into(pairs: &mut Vec<(Document, Document)>, k: Document, v: Document)
    ensures
        pairs_view(final(pairs)@) == dict_insert(pairs_view(old(pairs)@), k@, v@),
{
    let ghost prs = pairs_view(old(pairs)@);
    proof {
        lemma_pairs_view(old(pairs)@);
    }
    let mut pos: usize = 0;
    let mut stop = false;
    while pos < pairs.len() && !stop
        invariant
            0 <= pos <= pairs.len(),
            *pairs == *old(pairs),
            forall|j: int| 0 <= j < pos ==> doc_cmp(k@, (#[trigger] prs[j]).0) > 0,
            stop ==> pos < pairs.len() && doc_cmp(k@, prs[pos as int].0) <= 0,
        decreases pairs@.len() - pos, !stop as int,
    {
        let c = compare_docs(&k, &pairs[pos].0);
        if c <= 0 {
            stop = true;
        } else {
            pos = pos + 1;
        }
    }
    proof {
        lemma_dict_insert_at(prs, k@, v@, pos as int);
    }
    if pos < pairs.len() {
        let c = compare_docs(&k, &pairs[pos].0);
        if c == 0 {
            pairs.set(pos, (k, v));
            proof {
                lemma_pairs_view(final(pairs)@);
                assert(pairs_view(final(pairs)@) =~= prs.update(pos as int, (k@, v@)));
            }
        } else {
            pairs.insert(pos, (k, v));
            proof {
                lemma_pairs_view(final(pairs)@);
                assert(pairs_view(final(pairs)@) =~= prs.subrange(0, pos as int) + seq![
                    (k@, v@),
                ] + prs.subrange(pos as int, prs.len() as int));
            }
        }
    } else {
        pairs.push((k, v));
        proof {
            lemma_pairs_view(final(pairs)@);
            assert(pairs_view(final(pairs)@) =~= prs.push((k@, v@)));
        }
    }
}

/// Reads one leaf slot through the bound scope.
fn leaf_to_ser(scope: &Scope, entity: u64, tid: u64) -> (r: Result<Option<Document>, Error>)
    requires
        scope.wf(),
    ensures
        ser_res_view(r) == leaf_ser(scope.store_v(), entity, tid),
{
    match scope.store.slot_value(entity, tid) {
        Option::None => Result::Ok(Option::None),
        Option::Some(v) => Result::Ok(Option::Some(value_into_doc(v))),
    }
}

/// Scans a child list under one nested projection, collecting the present
/// and failing children's items in order.
#[verifier::loop_isolation(false)]
fn collect_items(scope: &Scope, cs: &Vec<u64>, q: &Projection) -> (items: Vec<
    Result<Document, Error>,
>)
    requires
        scope.wf(),
        scope.is_bound(),
    ensures
        items_view(items@) == child_items(scope.store_v(), cs@, q@),
    decreases *q, 1nat,
{
    let ghost s = scope.store_v();
    let mut items: Vec<Result<Document, Error>> = Vec::new();
    let mut i: usize = 0;
    proof {
        assert(items_view(items@) =~= child_items(s, cs@.subrange(0, 0), q@));
    }
    while i < cs.len()
        invariant
            i <= cs.len(),
            items_view(items@) == child_items(s, cs@.subrange(0, i as int), q@),
        decreases cs@.len() - i,
    {
        let r = to_ser(scope, cs[i], q);
        proof {
            assert(cs@.subrange(0, i + 1).drop_last() =~= cs@.subrange(0, i as int));
            assert(cs@.subrange(0, i + 1).last() == cs@[i as int]);
        }
        match r {
            Result::Ok(Option::None) => {
                proof {
                    assert(items_view(items@) =~= child_items(s, cs@.subrange(0, i + 1), q@));
                }
            },
            Result::Ok(Option::Some(d)) => {
                items.push(Result::Ok(d));
                proof {
                    assert(items_view(items@) =~= child_items(s, cs@.subrange(0, i + 1), q@));
                }
            },
            Result::Err(e) => {
                items.push(Result::Err(e));
                proof {
                    assert(items_view(items@) =~= child_items(s, cs@.subrange(0, i + 1), q@));
                }
            },
        }
        i = i + 1;
    }
    proof {
        assert(cs@.subrange(0, cs@.len() as int) =~= cs@);
    }
    items
}

/// Reads one entity (plus descendants) under a projection into a document:
/// `Ok(None)` when the entity does not carry the projection's primary slot,
/// `Ok(Some(doc))` on success, an error for any deeper structural failure.
/// Invoked with no active binding, it fails with `ScopeError`.
#[verifier::loop_isolation(false)]
pub fn to_ser(scope: &Scope, entity: u64, p: &Projection) -> (r: Result<Option<Document>, Error>)
    requires
        scope.wf(),
    ensures
        !scope.is_bound() ==> (r matches Result::Err(e) && e@ == ErrV::ScopeError),
        scope.is_bound() ==> ser_res_view(r) == to_ser_spec(scope.store_v(), entity, p@),
    decreases *p, 0nat,
{
    if !scope.bound {
        return Result::Err(Error::ScopeError);
    }
    let ghost s = scope.store_v();
    match p {
        Projection::Slot { type_id } => leaf_to_ser(scope, entity, *type_id),
        Projection::Tagged { type_id, .. } => leaf_to_ser(scope, entity, *type_id),
        Projection::Opt(m) => {
            proof {
                assert(decreases_to!(*p => *m.inner));
            }
            match to_ser(scope, entity, &m.inner) {
                Result::Err(e) => Result::Err(e),
                Result::Ok(Option::None) => Result::Ok(Option::Some(Document::Null)),
                Result::Ok(Option::Some(d)) => Result::Ok(Option::Some(d)),
            }
        },
        Projection::Solo(c) => {
            let children = match scope.store.children_of(entity) {
                Option::None => {
                    return Result::Err(Error::EntityMissing { entity });
                },
                Option::Some(cs) => cs,
            };
            proof {
                assert(decreases_to!(*p => *c.inner));
            }
            let items = collect_items(scope, &children, &c.inner);
            let ghost full = items_view(items@);
            if items.len() == 0 {
                Result::Ok(Option::None)
            } else if items.len() == 1 {
                match &items[0] {
                    Result::Ok(d) => Result::Ok(Option::Some(d.duplicate())),
                    Result::Err(e) => Result::Err(e.duplicate()),
                }
            } else {
                let mut j: usize = 0;
                proof {
                    assert(full.subrange(0, full.len() as int) =~= full);
                }
                while j < items.len()
                    invariant
                        j <= items.len(),
                        find_err(full) == find_err(full.subrange(j as int, full.len() as int)),
                    decreases items@.len() - j,
                {
                    proof {
                        let sub = full.subrange(j as int, full.len() as int);
                        assert(sub[0] == full[j as int]);
                        assert(sub.drop_first() =~= full.subrange(j + 1, full.len() as int));
                    }
                    match &items[j] {
                        Result::Err(e) => {
                            return Result::Err(e.duplicate());
                        },
                        Result::Ok(_) => {},
                    }
                    j = j + 1;
                }
                proof {
                    assert(full.subrange(full.len() as int, full.len() as int).len() == 0);
                }
                Result::Err(Error::MoreThanOne { parent: entity, ty: label(&c.inner) })
            }
        },
        Projection::SoloFirst(c) => {
            let children = match scope.store.children_of(entity) {
                Option::None => {
                    return Result::Err(Error::EntityMissing { entity });
                },
                Option::Some(cs) => cs,
            };
            proof {
                assert(decreases_to!(*p => *c.inner));
            }
            let items = collect_items(scope, &children, &c.inner);
            if items.len() == 0 {
                Result::Ok(Option::None)
            } else {
                match &items[0] {
                    Result::Ok(d) => Result::Ok(Option::Some(d.duplicate())),
                    Result::Err(e) => Result::Err(e.duplicate()),
                }
            }
        },
        Projection::ManyOf(c) => {
            let children = match scope.store.children_of(entity) {
                Option::None => {
                    return Result::Err(Error::EntityMissing { entity });
                },
                Option::Some(cs) => cs,
            };
            proof {
                assert(decreases_to!(*p => *c.inner));
            }
            let items = collect_items(scope, &children, &c.inner);
            let ghost full = items_view(items@);
            let mut j: usize = 0;
            proof {
                assert(full.subrange(0, full.len() as int) =~= full);
            }
            while j < items.len()
                invariant
                    j <= items.len(),
                    find_err(full) == find_err(full.subrange(j as int, full.len() as int)),
                    forall|t: int| 0 <= t < j ==> (#[trigger] full[t]) is Ok,
                decreases items@.len() - j,
            {
                proof {
                    let sub = full.subrange(j as int, full.len() as int);
                    assert(sub[0] == full[j as int]);
                    assert(sub.drop_first() =~= full.subrange(j + 1, full.len() as int));
                }
                match &items[j] {
                    Result::Err(e) => {
                        return Result::Err(e.duplicate());
                    },
                    Result::Ok(_) => {},
                }
                j = j + 1;
            }
            proof {
                assert(full.subrange(full.len() as int, full.len() as int).len() == 0);
                assert(find_err(full) is None);
            }
            let mut docs: Vec<Document> = Vec::new();
            let mut t: usize = 0;
            proof {
                assert(full.subrange(0, full.len() as int) =~= full);
                assert(docs_view(docs@) =~= Seq::<DocV>::empty());
                assert(docs_view(docs@) + oks(full.subrange(0, full.len() as int)) =~= oks(full));
            }
            while t < items.len()
                invariant
                    t <= items.len(),
                    oks(full) == docs_view(docs@) + oks(
                        full.subrange(t as int, full.len() as int),
                    ),
                decreases items@.len() - t,
            {
                proof {
                    let sub = full.subrange(t as int, full.len() as int);
                    assert(sub[0] == full[t as int]);
                    assert(sub.drop_first() =~= full.subrange(t + 1, full.len() as int));
                }
                match &items[t] {
                    Result::Ok(d) => {
                        let dd = d.duplicate();
                        let ghost before = docs_view(docs@);
                        let ghost prev = docs@;
                        docs.push(dd);
                        proof {
                            assert(docs@.drop_last() =~= prev);
                            assert(docs@.last() == dd);
                            assert(docs_view(docs@) =~= before.push(full[t as int]->Ok_0));
                            assert(docs_view(docs@) + oks(
                                full.subrange(t + 1, full.len() as int),
                            ) =~= oks(full));
                        }
                    },
                    Result::Err(_) => {},
                }
                t = t + 1;
            }
            proof {
                assert(oks(full) =~= docs_view(docs@));
            }
            Result::Ok(Option::Some(Document::List(docs)))
        },
        Projection::TableOf(cm) => {
            let children = match scope.store.children_of(entity) {
                Option::None => {
                    return Result::Err(Error::EntityMissing { entity });
                },
                Option::Some(cs) => cs,
            };
            proof {
                assert(decreases_to!(*p => *cm.key));
                assert(decreases_to!(*p => *cm.value));
            }
            let ghost ks = child_opts(s, children@, cm.key@);
            let ghost vs = child_opts(s, children@, cm.value@);
            let ghost kl = label_v(cm.key@);
            let ghost vl = label_v(cm.value@);
            proof {
                lemma_child_opts(s, children@, cm.key@);
                lemma_child_opts(s, children@, cm.value@);
            }
            let mut acc: Vec<(Document, Document)> = Vec::new();
            let mut i: usize = 0;
            proof {
                assert(pairs_view(acc@) =~= Seq::<(DocV, DocV)>::empty());
            }
            while i < children.len()
                invariant
                    i <= children.len(),
                    table_fold(ks, vs, kl, vl, 0, Seq::empty()) == table_fold(
                        ks,
                        vs,
                        kl,
                        vl,
                        i as int,
                        pairs_view(acc@),
                    ),
                decreases children@.len() - i,
            {
                let kr = to_ser(scope, children[i], &cm.key);
                match kr {
                    Result::Err(ke) => {
                        return Result::Err(ke);
                    },
                    Result::Ok(Option::None) => {},
                    Result::Ok(Option::Some(kd)) => {
                        let vr = to_ser(scope, children[i], &cm.value);
                        match vr {
                            Result::Err(ve) => {
                                return Result::Err(ve);
                            },
                            Result::Ok(Option::None) => {
                                return Result::Err(
                                    Error::KeyNoValue {
                                        key: label(&cm.key),
                                        value: label(&cm.value),
                                    },
                                );
                            },
                            Result::Ok(Option::Some(vd)) => {
                                dict_insert_into(&mut acc, kd, vd);
                            },
                        }
                    },
                }
                i = i + 1;
            }
            Result::Ok(Option::Some(Document::Dict(acc)))
        },
        Projection::Object(c) => {
            let primary = scope.store.slot_value(entity, c.primary);
            if primary.is_none() {
                return Result::Ok(Option::None);
            }
            let ghost flds = crate::projection::flds_view(c.fields@);
            let ghost name = c.name@;
            proof {
                lemma_flds_view(c.fields@);
            }
            let mut acc: Vec<(Document, Document)> = Vec::new();
            let mut i: usize = 0;
            proof {
                assert(pairs_view(acc@) =~= Seq::<(DocV, DocV)>::empty());
            }
            while i < c.fields.len()
                invariant
                    i <= c.fields.len(),
                    fields_fold(s, entity, flds, name, 0, Seq::empty()) == fields_fold(
                        s,
                        entity,
                        flds,
                        name,
                        i as int,
                        pairs_view(acc@),
                    ),
                decreases c.fields@.len() - i,
            {
                proof {
                    assert(decreases_to!(*p => c.fields));
                    assert(decreases_to!(c.fields => c.fields@[i as int]));
                    assert(decreases_to!(c.fields@[i as int] => c.fields@[i as int].1));
                }
                let fr = to_ser(scope, entity, &c.fields[i].1);
                match fr {
                    Result::Err(e) => {
                        return Result::Err(e);
                    },
                    Result::Ok(Option::None) => {
                        return Result::Err(
                            Error::FieldMissing {
                                field: c.fields[i].0.clone(),
                                ty: c.name.clone(),
                            },
                        );
                    },
                    Result::Ok(Option::Some(d)) => {
                        let ghost before = pairs_view(acc@);
                        let ghost prev = acc@;
                        let ghost dv = d@;
                        let fname = c.fields[i].0.clone();
                        let key = Document::Str(fname);
                        proof {
                            assert(key@ == DocV::Str(flds[i as int].0));
                        }
                        let ghost kv = key@;
                        acc.push((key, d));
                        proof {
                            assert(acc@.drop_last() =~= prev);
                            assert(acc@.last().0@ == kv && acc@.last().1@ == dv);
                            assert(pairs_view(acc@) =~= before.push(
                                (DocV::Str(flds[i as int].0), dv),
                            ));
                        }
                    },
                }
                i = i + 1;
            }
            Result::Ok(Option::Some(Document::Dict(acc)))
        },
    }
}

/// Spec shape of a protocol write result.
pub open spec fn de_res_view(r: Result<(), Error>) -> Result<(), ErrV> {
    match r {
        Result::Ok(_) => Result::Ok(()),
        Result::Err(e) => Result::Err(e@),
    }
}

/// Looks a field name up in a composite's document.
#[verifier::loop_isolation(false)]
fn dict_find(prs: &Vec<(Document, Document)>, name: &String) -> (r: Option<Document>)
    ensures
        match dict_lookup(pairs_view(prs@), name@) {
            Option::None => r is None,
            Option::Some(dv) => r matches Option::Some(d) && d@ == dv,
        },
{
    let ghost full = pairs_view(prs@);
    proof {
        lemma_pairs_view(prs@);
        assert(full.subrange(0, full.len() as int) =~= full);
    }
    let mut j: usize = 0;
    while j < prs.len()
        invariant
            j <= prs.len(),
            dict_lookup(full, name@) == dict_lookup(
                full.subrange(j as int, full.len() as int),
                name@,
            ),
        decreases prs@.len() - j,
    {
        proof {
            let sub = full.subrange(j as int, full.len() as int);
            assert(sub[0] == full[j as int]);
            assert(sub.drop_first() =~= full.subrange(j + 1, full.len() as int));
        }
        match &prs[j].0 {
            Document::Str(s) => {
                if s.eq(name) {
                    return Option::Some(prs[j].1.duplicate());
                }
            },
            _ => {},
        }
        j = j + 1;
    }
    proof {
        assert(full.subrange(full.len() as int, full.len() as int).len() == 0);
    }
    Option::None
}

/// Decodes one nested object into a freshly spawned child and attaches it to
/// the parent.
fn de_child_into(scope: &mut Scope, parent: u64, q: &Projection, d: &Document) -> (r: Result<
    (),
    Error,
>)
    requires
        old(scope).wf(),
        old(scope).is_bound(),
    ensures
        final(scope).is_bound(),
        final(scope).registry() == old(scope).registry(),
        final(scope).cursor_v() == old(scope).cursor_v(),
        final(scope).wf(),
        (final(scope).store_v(), de_res_view(r)) == de_child(
            old(scope).store_v(),
            old(scope).registry(),
            parent,
            q@,
            d@,
        ),
    decreases *q, 1nat,
{
    if scope.store.next_id == u64::MAX {
        return Result::Err(Error::StoreFull);
    }
    let c = scope.store.spawn();
    let r = from_de(scope, c, q, d);
    match r {
        Result::Err(e) => Result::Err(e),
        Result::Ok(_) => {
            let ok = scope.store.add_child(parent, c);
            if ok {
                Result::Ok(())
            } else {
                Result::Err(Error::EntityMissing { entity: parent })
            }
        },
    }
}

/// Writes a deserialized document back onto the given entity (and, through
/// child extractors, onto freshly spawned descendants). Failure aborts the
/// enclosing operation; writes made before the failure stay. Invoked with no
/// active binding, it fails with `ScopeError` and writes nothing.
#[verifier::loop_isolation(false)]
pub fn from_de(scope: &mut Scope, entity: u64, p: &Projection, d: &Document) -> (r: Result<
    (),
    Error,
>)
    requires
        old(scope).wf(),
    ensures
        !old(scope).is_bound() ==> (r matches Result::Err(e) && e@ == ErrV::ScopeError)
            && !final(scope).is_bound() && final(scope).store_v() == old(scope).store_v()
            && final(scope).registry() == old(scope).registry() && final(scope).cursor_v() == old(
            scope,
        ).cursor_v(),
        old(scope).is_bound() ==> final(scope).is_bound() && final(scope).registry() == old(
            scope,
        ).registry() && final(scope).cursor_v() == old(scope).cursor_v() && final(scope).wf() && (
        final(scope).store_v(), de_res_view(r)) == from_de_spec(
            old(scope).store_v(),
            old(scope).registry(),
            entity,
            p@,
            d@,
        ),
    decreases *p, 0nat,
{
    if !scope.bound {
        return Result::Err(Error::ScopeError);
    }
    let ghost s0 = scope.store_v();
    let ghost reg = scope.registry();
    match p {
        Projection::Slot { type_id } => {
            let ok = scope.store.insert_slot(entity, *type_id, Value::Plain(d.duplicate()));
            if ok {
                Result::Ok(())
            } else {
                Result::Err(Error::EntityMissing { entity })
            }
        },
        Projection::Tagged { type_id, trait_id } => {
            match d {
                Document::Dict(prs) => {
                    proof {
                        lemma_pairs_view(prs@);
                    }
                    if prs.len() != 1 {
                        return Result::Err(Error::ExpectedTagged);
                    }
                    match &prs[0].0 {
                        Document::Str(tag) => {
                            let found = scope.server.get(*trait_id, tag.as_str());
                            if found.is_none() {
                                return Result::Err(
                                    Error::UnregisteredTag { tag: tag.clone() },
                                );
                            }
                            let value = Value::Tagged(
                                TypeTagged { tag: tag.clone(), payload: prs[0].1.duplicate() },
                            );
                            let ok = scope.store.insert_slot(entity, *type_id, value);
                            if ok {
                                Result::Ok(())
                            } else {
                                Result::Err(Error::EntityMissing { entity })
                            }
                        },
                        _ => Result::Err(Error::ExpectedTagged),
                    }
                },
                _ => Result::Err(Error::ExpectedTagged),
            }
        },
        Projection::Opt(m) => {
            proof {
                assert(decreases_to!(*p => *m.inner));
            }
            match d {
                Document::Null => Result::Ok(()),
                _ => from_de(scope, entity, &m.inner, d),
            }
        },
        Projection::Solo(c) => {
            proof {
                assert(decreases_to!(*p => *c.inner));
            }
            de_child_into(scope, entity, &c.inner, d)
        },
        Projection::SoloFirst(c) => {
            proof {
                assert(decreases_to!(*p => *c.inner));
            }
            de_child_into(scope, entity, &c.inner, d)
        },
        Projection::ManyOf(c) => {
            match d {
                Document::List(ds) => {
                    let ghost dsv = docs_view(ds@);
                    proof {
                        lemma_docs_view(ds@);
                        assert(decreases_to!(*p => *c.inner));
                    }
                    let mut i: usize = 0;
                    while i < ds.len()
                        invariant
                            i <= ds.len(),
                            scope.is_bound(),
                            scope.wf(),
                            scope.registry() == reg,
                            scope.cursor_v() == old(scope).cursor_v(),
                            many_de(s0, reg, entity, c.inner@, dsv, 0) == many_de(
                                scope.store_v(),
                                reg,
                                entity,
                                c.inner@,
                                dsv,
                                i as int,
                            ),
                        decreases ds@.len() - i,
                    {
                        let r = de_child_into(scope, entity, &c.inner, &ds[i]);
                        match r {
                            Result::Err(e) => {
                                return Result::Err(e);
                            },
                            Result::Ok(_) => {},
                        }
                        i = i + 1;
                    }
                    Result::Ok(())
                },
                _ => Result::Err(Error::ExpectedList),
            }
        },
        Projection::TableOf(cm) => {
            match d {
                Document::Dict(prs) => {
                    let ghost prsv = pairs_view(prs@);
                    proof {
                        lemma_pairs_view(prs@);
                        assert(decreases_to!(*p => *cm.key));
                        assert(decreases_to!(*p => *cm.value));
                        assert(p@ matches ProjV::TableOf(_));
                    }
                    let ghost kvv = p@->TableOf_0;
                    let mut entries: Vec<(Document, Document)> = Vec::new();
                    let mut j: usize = 0;
                    proof {
                        assert(pairs_view(entries@) =~= Seq::<(DocV, DocV)>::empty());
                    }
                    while j < prs.len()
                        invariant
                            j <= prs.len(),
                            canon_fold(prsv, 0, Seq::empty()) == canon_fold(
                                prsv,
                                j as int,
                                pairs_view(entries@),
                            ),
                        decreases prs@.len() - j,
                    {
                        let kd = prs[j].0.duplicate();
                        let vd = prs[j].1.duplicate();
                        dict_insert_into(&mut entries, kd, vd);
                        j = j + 1;
                    }
                    let ghost ev = pairs_view(entries@);
                    proof {
                        lemma_pairs_view(entries@);
                        assert(ev == dict_canon(prsv));
                    }
                    let mut i: usize = 0;
                    while i < entries.len()
                        invariant
                            i <= entries.len(),
                            scope.is_bound(),
                            scope.wf(),
                            scope.registry() == reg,
                            scope.cursor_v() == old(scope).cursor_v(),
                            ev == pairs_view(entries@),
                            table_de(s0, reg, entity, kvv, ev, 0) == table_de(
                                scope.store_v(),
                                reg,
                                entity,
                                kvv,
                                ev,
                                i as int,
                            ),
                        decreases entries@.len() - i,
                    {
                        if scope.store.next_id == u64::MAX {
                            return Result::Err(Error::StoreFull);
                        }
                        let child = scope.store.spawn();
                        let rk = from_de(scope, child, &cm.key, &entries[i].0);
                        match rk {
                            Result::Err(e) => {
                                return Result::Err(e);
                            },
                            Result::Ok(_) => {},
                        }
                        let rv = from_de(scope, child, &cm.value, &entries[i].1);
                        match rv {
                            Result::Err(e) => {
                                return Result::Err(e);
                            },
                            Result::Ok(_) => {},
                        }
                        let ok = scope.store.add_child(entity, child);
                        if !ok {
                            return Result::Err(Error::EntityMissing { entity });
                        }
                        i = i + 1;
                    }
                    Result::Ok(())
                },
                _ => Result::Err(Error::ExpectedDict),
            }
        },
        Projection::Object(c) => {
            match d {
                Document::Dict(prs) => {
                    let ghost prsv = pairs_view(prs@);
                    let ghost flds = crate::projection::flds_view(c.fields@);
                    let ghost name = c.name@;
                    proof {
                        lemma_pairs_view(prs@);
                        lemma_flds_view(c.fields@);
                    }
                    let mut i: usize = 0;
                    while i < c.fields.len()
                        invariant
                            i <= c.fields.len(),
                            scope.is_bound(),
                            scope.wf(),
                            scope.registry() == reg,
                            scope.cursor_v() == old(scope).cursor_v(),
                            obj_de(s0, reg, entity, flds, prsv, name, 0) == obj_de(
                                scope.store_v(),
                                reg,
                                entity,
                                flds,
                                prsv,
                                name,
                                i as int,
                            ),
                        decreases c.fields@.len() - i,
                    {
                        proof {
                            assert(decreases_to!(*p => c.fields));
                            assert(decreases_to!(c.fields => c.fields@[i as int]));
                            assert(decreases_to!(c.fields@[i as int] => c.fields@[i as int].1));
                        }
                        match dict_find(prs, &c.fields[i].0) {
                            Option::None => {
                                return Result::Err(
                                    Error::FieldMissing {
                                        field: c.fields[i].0.clone(),
                                        ty: c.name.clone(),
                                    },
                                );
                            },
                            Option::Some(fd) => {
                                let r = from_de(scope, entity, &c.fields[i].1, &fd);
                                match r {
                                    Result::Err(e) => {
                                        return Result::Err(e);
                                    },
                                    Result::Ok(_) => {},
                                }
                            },
                        }
                        i = i + 1;
                    }
                    Result::Ok(())
                },
                _ => Result::Err(Error::ExpectedDict),
            }
        },
    }
}

} // verus!
