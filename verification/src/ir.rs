use vstd::prelude::*;

verus! {

/// A document: a tree of layout primitives that describes what to print
/// independently of the page width.
#[derive(Debug, PartialEq, Eq)]
pub enum Doc {
    /// Produces no output; the identity element of concatenation.
    Nil,
    /// Literal characters. Text must not contain embedded newlines: line
    /// breaks are expressed structurally with `Hardline` and `Softline`.
    Text(String),
    /// An unconditional line break.
    Hardline,
    /// A conditional break: a single space if the enclosing group fits on
    /// the current line, otherwise a newline.
    Softline,
    /// Sequential composition of sub-documents.
    Concat(Vec<Doc>),
    /// A sub-document whose break-triggered flushes are indented one level
    /// deeper.
    Indent(Box<Doc>),
    /// A sub-document whose softlines are decided together by a single
    /// width measurement.
    Group(Box<Doc>),
}

/// The mathematical shape of a document: the same tree with text as
/// character sequences. All contracts of this crate speak of this view.
pub enum DocView {
    Nil,
    Text(Seq<char>),
    Hardline,
    Softline,
    Concat(Seq<DocView>),
    Indent(Box<DocView>),
    Group(Box<DocView>),
}

/// The view of a document tree.
pub open spec fn doc_view(d: Doc) -> DocView
    decreases d,
{
    match d {
        Doc::Nil => DocView::Nil,
        Doc::Text(s) => DocView::Text(s@),
        Doc::Hardline => DocView::Hardline,
        Doc::Softline => DocView::Softline,
        Doc::Concat(ds) => DocView::Concat(docs_view(ds@)),
        Doc::Indent(b) => DocView::Indent(Box::new(doc_view(*b))),
        Doc::Group(b) => DocView::Group(Box::new(doc_view(*b))),
    }
}

/// The views of a sequence of documents, element by element.
pub open spec fn docs_view(ds: Seq<Doc>) -> Seq<DocView>
    decreases ds,
{
    if ds.len() == 0 {
        Seq::empty()
    } else {
        seq![doc_view(ds[0])] + docs_view(ds.drop_first())
    }
}

impl View for Doc {
    type V = DocView;

    open spec fn view(&self) -> DocView {
        doc_view(*self)
    }
}

/// The length of a view sequence equals the length of the document sequence.
pub proof fn lemma_docs_view_len(ds: Seq<Doc>)
    ensures
        docs_view(ds).len() == ds.len(),
    decreases ds,
{
    if ds.len() > 0 {
        lemma_docs_view_len(ds.drop_first());
    }
}

/// Each element of the view sequence is the view of the matching document.
pub proof fn lemma_docs_view_index(ds: Seq<Doc>, i: int)
    requires
        0 <= i < ds.len(),
    ensures
        docs_view(ds).len() == ds.len(),
        docs_view(ds)[i] == doc_view(ds[i]),
    decreases ds,
{
    lemma_docs_view_len(ds);
    if i > 0 {
        lemma_docs_view_index(ds.drop_first(), i - 1);
    }
}

/// A document sequence with the `Nil` entries removed.
pub open spec fn drop_nils(ds: Seq<DocView>) -> Seq<DocView>
    decreases ds.len(),
{
    if ds.len() == 0 {
        Seq::empty()
    } else if ds[0] is Nil {
        drop_nils(ds.drop_first())
    } else {
        seq![ds[0]] + drop_nils(ds.drop_first())
    }
}

/// Removing `Nil` entries from a sequence extended by one element removes
/// them from the prefix and keeps the new element exactly when it is not
/// `Nil`.
pub proof fn lemma_drop_nils_push(ds: Seq<DocView>, x: DocView)
    ensures
        drop_nils(ds.push(x)) == drop_nils(ds) + (if x is Nil {
            Seq::<DocView>::empty()
        } else {
            seq![x]
        }),
    decreases ds.len(),
{
    reveal_with_fuel(drop_nils, 3);
    if ds.len() == 0 {
        assert(ds.push(x).drop_first() =~= Seq::<DocView>::empty());
        assert(drop_nils(ds) =~= Seq::<DocView>::empty());
        if x is Nil {
            assert(drop_nils(ds.push(x)) =~= drop_nils(ds));
        } else {
            assert(drop_nils(ds.push(x)) =~= seq![x]);
        }
    } else {
        assert(ds.push(x).drop_first() =~= ds.drop_first().push(x));
        lemma_drop_nils_push(ds.drop_first(), x);
        if !(ds[0] is Nil) {
            if x is Nil {
                assert(drop_nils(ds.push(x)) =~= drop_nils(ds));
            } else {
                assert(drop_nils(ds.push(x)) =~= drop_nils(ds) + seq![x]);
            }
        }
    }
}

/// What `Doc::concat` builds: the children with `Nil` entries dropped,
/// collapsed to `Nil` when nothing remains and to the single child when
/// exactly one remains.
pub open spec fn spec_concat(ds: Seq<DocView>) -> DocView {
    let kept = drop_nils(ds);
    if kept.len() == 0 {
        DocView::Nil
    } else if kept.len() == 1 {
        kept[0]
    } else {
        DocView::Concat(kept)
    }
}

/// The documents with the separator placed between each adjacent pair.
pub open spec fn interleave(ds: Seq<DocView>, sep: DocView) -> Seq<DocView>
    decreases ds.len(),
{
    if ds.len() == 0 {
        Seq::empty()
    } else if ds.len() == 1 {
        seq![ds[0]]
    } else {
        seq![ds[0], sep] + interleave(ds.drop_first(), sep)
    }
}

/// What `join` builds: `Nil` for no documents, otherwise the concatenation
/// of the documents with the separator interleaved.
pub open spec fn spec_join(ds: Seq<DocView>, sep: DocView) -> DocView {
    if ds.len() == 0 {
        DocView::Nil
    } else {
        spec_concat(interleave(ds, sep))
    }
}

/// Interleaving one more document appends the separator and that document.
pub proof fn lemma_interleave_push(ds: Seq<DocView>, sep: DocView, x: DocView)
    requires
        ds.len() >= 1,
    ensures
        interleave(ds.push(x), sep) == interleave(ds, sep) + seq![sep, x],
    decreases ds.len(),
{
    reveal_with_fuel(interleave, 3);
    if ds.len() == 1 {
        assert(ds.push(x).drop_first() =~= seq![x]);
        assert(interleave(ds.push(x), sep) =~= seq![ds[0], sep, x]);
        assert(interleave(ds, sep) + seq![sep, x] =~= seq![ds[0], sep, x]);
    } else {
        assert(ds.push(x).drop_first() =~= ds.drop_first().push(x));
        lemma_interleave_push(ds.drop_first(), sep, x);
        assert(interleave(ds.push(x), sep) =~= interleave(ds, sep) + seq![sep, x]);
    }
}

/// A deep copy of each document in the sequence, views preserved.
fn clone_docs(ds: &Vec<Doc>) -> (res: Vec<Doc>)
    ensures
        docs_view(res@) == docs_view(ds@),
    decreases *ds,
{
    let mut kept: Vec<Doc> = Vec::new();
    let mut i: usize = 0;
    while i < ds.len()
        invariant
            i <= ds@.len(),
            kept@.len() == i,
            forall|j: int| 0 <= j < i ==> doc_view(kept@[j]) == doc_view(ds@[j]),
        decreases ds@.len() - i,
    {
        kept.push(ds[i].clone());
        i = i + 1;
    }
    proof {
        lemma_docs_view_len(kept@);
        lemma_docs_view_len(ds@);
        assert forall|j: int| 0 <= j < ds@.len() implies docs_view(kept@)[j] == docs_view(
            ds@,
        )[j] by {
            lemma_docs_view_index(kept@, j);
            lemma_docs_view_index(ds@, j);
        }
        assert(docs_view(kept@) =~= docs_view(ds@));
    }
    kept
}

impl Clone for Doc {
    /// A deep copy whose view is the view of the original.
    fn clone(&self) -> (res: Doc)
        ensures
            res@ == self@,
        decreases *self,
    {
        match self {
            Doc::Nil => Doc::Nil,
            Doc::Text(s) => Doc::Text(s.clone()),
            Doc::Hardline => Doc::Hardline,
            Doc::Softline => Doc::Softline,
            Doc::Concat(ds) => Doc::Concat(clone_docs(ds)),
            Doc::Indent(b) => Doc::Indent(Box::new((**b).clone())),
            Doc::Group(b) => Doc::Group(Box::new((**b).clone())),
        }
    }
}

impl Doc {
    /// The empty document.
    pub fn nil() -> (d: Doc)
        ensures
            d@ == DocView::Nil,
    {
        Doc::Nil
    }

    /// A literal text document. The text must not contain embedded
    /// newlines; line breaks are expressed with `hardline` and `softline`.
    pub fn text(s: &str) -> (d: Doc)
        ensures
            d@ == DocView::Text(s@),
    {
        Doc::Text(s.to_owned())
    }

    /// An unconditional line break.
    pub fn hardline() -> (d: Doc)
        ensures
            d@ == DocView::Hardline,
    {
        Doc::Hardline
    }

    /// A conditional break: a space when the enclosing group fits,
    /// otherwise a newline.
    pub fn softline() -> (d: Doc)
        ensures
            d@ == DocView::Softline,
    {
        Doc::Softline
    }

    /// A single space.
    pub fn space() -> (d: Doc)
        ensures
            d@ == DocView::Text(seq![' ']),
    {
        proof {
            reveal_strlit(" ");
            assert(" "@ =~= seq![' ']);
        }
        Doc::Text(" ".to_owned())
    }

    /// Sequential composition. `Nil` children are dropped and a single
    /// remaining child stands for the whole, so `Nil` is the identity of
    /// concatenation.
    pub fn concat(docs: Vec<Doc>) -> (d: Doc)
        ensures
            d@ == spec_concat(docs_view(docs@)),
    {
        let mut rest = docs;
        let ghost orig: Seq<Doc> = rest@;
        let mut kept: Vec<Doc> = Vec::new();
        proof {
            lemma_docs_view_len(orig);
            assert(orig.subrange(0, 0) =~= Seq::<Doc>::empty());
        }
        while rest.len() > 0
            invariant
                rest@.len() <= orig.len(),
                rest@ =~= orig.subrange(orig.len() - rest@.len(), orig.len() as int),
                docs_view(kept@) == drop_nils(docs_view(orig.subrange(
                    0,
                    orig.len() - rest@.len(),
                ))),
            decreases rest@.len(),
        {
            let ghost k: int = orig.len() - rest@.len();
            let d = rest.remove(0);
            proof {
                assert(d == orig[k]);
                assert(rest@ =~= orig.subrange(k + 1, orig.len() as int));
                let prefix = orig.subrange(0, k);
                assert(orig.subrange(0, k + 1) =~= prefix.push(orig[k]));
                lemma_docs_view_push(prefix, orig[k]);
                lemma_drop_nils_push(docs_view(prefix), doc_view(orig[k]));
            }
            match d {
                Doc::Nil => {
                    proof {
                        lemma_docs_view_push(kept@, d);
                    }
                },
                other => {
                    proof {
                        lemma_docs_view_push(kept@, other);
                    }
                    kept.push(other);
                },
            }
        }
        proof {
            assert(orig.subrange(0, orig.len() as int) =~= orig);
            lemma_docs_view_len(kept@);
        }
        if kept.len() == 0 {
            Doc::Nil
        } else if kept.len() == 1 {
            let single = kept.remove(0);
            proof {
                lemma_docs_view_index(kept@.insert(0, single), 0);
                assert(kept@.insert(0, single)[0] == single);
            }
            single
        } else {
            Doc::Concat(kept)
        }
    }

    /// An indentation scope: flushes inside it are indented one level
    /// deeper.
    pub fn indent(doc: Doc) -> (d: Doc)
        ensures
            d@ == DocView::Indent(Box::new(doc@)),
    {
        Doc::Indent(Box::new(doc))
    }

    /// A grouping scope: the softlines directly inside it are decided
    /// together by one width measurement.
    pub fn group(doc: Doc) -> (d: Doc)
        ensures
            d@ == DocView::Group(Box::new(doc@)),
    {
        Doc::Group(Box::new(doc))
    }
}

/// Appending one document appends its view.
pub proof fn lemma_docs_view_push(ds: Seq<Doc>, x: Doc)
    ensures
        docs_view(ds.push(x)) == docs_view(ds).push(doc_view(x)),
    decreases ds,
{
    lemma_docs_view_len(ds.push(x));
    lemma_docs_view_len(ds);
    assert forall|j: int| 0 <= j < ds.len() + 1 implies docs_view(ds.push(x))[j] == docs_view(
        ds,
    ).push(doc_view(x))[j] by {
        lemma_docs_view_index(ds.push(x), j);
        if j < ds.len() {
            lemma_docs_view_index(ds, j);
            assert(ds.push(x)[j] == ds[j]);
        } else {
            assert(ds.push(x)[j] == x);
        }
    }
    assert(docs_view(ds.push(x)) =~= docs_view(ds).push(doc_view(x)));
}

/// Interleaves `sep` between each adjacent pair of `docs`: no output for an
/// empty sequence, the single document alone for one element.
pub fn join(docs: Vec<Doc>, sep: Doc) -> (d: Doc)
    ensures
        d@ == spec_join(docs_view(docs@), sep@),
{
    proof {
        lemma_docs_view_len(docs@);
    }
    if docs.is_empty() {
        return Doc::Nil;
    }
    let mut rest = docs;
    let ghost orig: Seq<Doc> = rest@;
    let ghost dv: Seq<DocView> = docs_view(orig);
    let mut result: Vec<Doc> = Vec::new();
    let mut first: bool = true;
    proof {
        assert(dv.subrange(0, 0) =~= Seq::<DocView>::empty());
    }
    while rest.len() > 0
        invariant
            1 <= orig.len(),
            rest@.len() <= orig.len(),
            rest@ =~= orig.subrange(orig.len() - rest@.len(), orig.len() as int),
            dv == docs_view(orig),
            dv.len() == orig.len(),
            first <==> rest@.len() == orig.len(),
            docs_view(result@) == interleave(dv.subrange(0, orig.len() - rest@.len()), sep@),
        decreases rest@.len(),
    {
        let ghost k: int = orig.len() - rest@.len();
        let d = rest.remove(0);
        proof {
            assert(d == orig[k]);
            assert(rest@ =~= orig.subrange(k + 1, orig.len() as int));
            lemma_docs_view_index(orig, k);
            assert(dv.subrange(0, k + 1) =~= dv.subrange(0, k).push(dv[k]));
        }
        if !first {
            let s = sep.clone();
            proof {
                lemma_docs_view_push(result@, s);
            }
            result.push(s);
            proof {
                lemma_docs_view_push(result@, d);
                lemma_interleave_push(dv.subrange(0, k), sep@, dv[k]);
            }
            result.push(d);
        } else {
            proof {
                lemma_docs_view_push(result@, d);
                assert(interleave(dv.subrange(0, 1), sep@) =~= seq![dv[0]]);
            }
            result.push(d);
        }
        first = false;
    }
    proof {
        assert(dv.subrange(0, orig.len() as int) =~= dv);
    }
    Doc::concat(result)
}

} // verus!
