use vstd::prelude::*;

verus! {

/// The mathematical shape of a document; every contract in this crate speaks
/// of documents through this type.
#[verifier::ext_equal]
pub enum DocV {
    Null,
    Bool(bool),
    Int(int),
    Str(Seq<char>),
    List(Seq<DocV>),
    Dict(Seq<(DocV, DocV)>),
}

/// A self-describing wire value: the format-agnostic tree that one projected
/// entity serializes into and is restored from.
///
/// A composite object's document is a `Dict` from field name to that field's
/// own document; an externally tagged trait object is a single-entry `Dict`;
/// a child list is a `List`. Concrete formats (JSON, binary) are produced
/// outside this crate by walking this tree.
#[derive(Debug, PartialEq, Eq)]
pub enum Document {
    Null,
    Bool(bool),
    Int(i64),
    Str(String),
    List(Vec<Document>),
    Dict(Vec<(Document, Document)>),
}

pub open spec fn doc_view(d: Document) -> DocV
    decreases d, 0nat,
{
    match d {
        Document::Null => DocV::Null,
        Document::Bool(b) => DocV::Bool(b),
        Document::Int(i) => DocV::Int(i as int),
        Document::Str(s) => DocV::Str(s@),
        Document::List(items) => DocV::List(docs_view(items@)),
        Document::Dict(pairs) => DocV::Dict(pairs_view(pairs@)),
    }
}

pub open spec fn docs_view(s: Seq<Document>) -> Seq<DocV>
    decreases s, 1nat,
{
    if s.len() == 0 {
        Seq::empty()
    } else {
        docs_view(s.drop_last()).push(doc_view(s.last()))
    }
}

pub open spec fn pairs_view(s: Seq<(Document, Document)>) -> Seq<(DocV, DocV)>
    decreases s, 1nat,
{
    if s.len() == 0 {
        Seq::empty()
    } else {
        pairs_view(s.drop_last()).push((doc_view(s.last().0), doc_view(s.last().1)))
    }
}

impl View for Document {
    type V = DocV;

    open spec fn view(&self) -> DocV {
        doc_view(*self)
    }
}

pub proof fn lemma_docs_view(s: Seq<Document>)
    ensures
        docs_view(s).len() == s.len(),
        forall|i: int| 0 <= i < s.len() ==> docs_view(s)[i] == doc_view(s[i]),
    decreases s.len(),
{
    if s.len() > 0 {
        lemma_docs_view(s.drop_last());
    }
}

pub proof fn lemma_pairs_view(s: Seq<(Document, Document)>)
    ensures
        pairs_view(s).len() == s.len(),
        forall|i: int| 0 <= i < s.len() ==> pairs_view(s)[i]
            == (doc_view(s[i].0), doc_view(s[i].1)),
    decreases s.len(),
{
    if s.len() > 0 {
        lemma_pairs_view(s.drop_last());
    }
}

impl Document {
    /// A structural copy; the derived `Clone` says nothing to the verifier,
    /// so verified callers copy through this method instead.
    #[verifier::loop_isolation(false)]
    pub fn duplicate(&self) -> (r: Document)
        ensures
            r@ == self@,
        decreases *self,
    {
        match self {
            Document::Null => Document::Null,
            Document::Bool(b) => Document::Bool(*b),
            Document::Int(i) => Document::Int(*i),
            Document::Str(s) => Document::Str(s.clone()),
            Document::List(items) => {
                let mut out: Vec<Document> = Vec::new();
                let mut i: usize = 0;
                while i < items.len()
                    invariant
                        i <= items.len(),
                        out@.len() == i,
                        forall|j: int| 0 <= j < i ==> doc_view(out@[j]) == doc_view(items@[j]),
                    decreases items@.len() - i,
                {
                    proof {
                        assert(decreases_to!(*self => *items));
                        assert(decreases_to!(*items => items@[i as int]));
                    }
                    let d = items[i].duplicate();
                    out.push(d);
                    i = i + 1;
                }
                proof {
                    lemma_docs_view(out@);
                    lemma_docs_view(items@);
                    assert(docs_view(out@) =~= docs_view(items@));
                }
                Document::List(out)
            },
            Document::Dict(pairs) => {
                let mut out: Vec<(Document, Document)> = Vec::new();
                let mut i: usize = 0;
                while i < pairs.len()
                    invariant
                        i <= pairs.len(),
                        out@.len() == i,
                        forall|j: int| 0 <= j < i ==> doc_view(out@[j].0) == doc_view(pairs@[j].0)
                            && doc_view(out@[j].1) == doc_view(pairs@[j].1),
                    decreases pairs@.len() - i,
                {
                    proof {
                        assert(decreases_to!(*self => *pairs));
                        assert(decreases_to!(*pairs => pairs@[i as int]));
                        assert(decreases_to!(pairs@[i as int] => pairs@[i as int].0));
                        assert(decreases_to!(pairs@[i as int] => pairs@[i as int].1));
                    }
                    let k = pairs[i].0.duplicate();
                    let v = pairs[i].1.duplicate();
                    out.push((k, v));
                    i = i + 1;
                }
                proof {
                    lemma_pairs_view(out@);
                    lemma_pairs_view(pairs@);
                    assert(pairs_view(out@) =~= pairs_view(pairs@));
                }
                Document::Dict(out)
            },
        }
    }
}

} // verus!
