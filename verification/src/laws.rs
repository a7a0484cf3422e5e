use vstd::prelude::*;

use crate::config::FormatConfig;
use crate::ir::{drop_nils, interleave, spec_concat, spec_join, DocView};
use crate::printer::{
    append_state, doc_print, docs_print, flat_width, flush_state, has_hardline, init_state,
    render, seq_flat_width, seq_has_hardline, spaces, spec_fits, strip_trailing_newlines,
    PrintState,
};

verus! {

/// Whether the document consists of text, concatenation and `Nil` alone:
/// no break of either kind, no indentation or grouping scope.
pub open spec fn text_only(d: DocView) -> bool
    decreases d,
{
    match d {
        DocView::Nil => true,
        DocView::Text(_) => true,
        DocView::Hardline => false,
        DocView::Softline => false,
        DocView::Concat(ds) => seq_text_only(ds),
        DocView::Indent(_) => false,
        DocView::Group(_) => false,
    }
}

/// Whether every document of the sequence is text-only.
pub open spec fn seq_text_only(ds: Seq<DocView>) -> bool
    decreases ds,
{
    if ds.len() == 0 {
        true
    } else {
        text_only(ds[0]) && seq_text_only(ds.drop_first())
    }
}

/// The concatenation of all text in the document, in order.
pub open spec fn text_content(d: DocView) -> Seq<char>
    decreases d,
{
    match d {
        DocView::Nil => Seq::empty(),
        DocView::Text(s) => s,
        DocView::Hardline => Seq::empty(),
        DocView::Softline => Seq::empty(),
        DocView::Concat(ds) => seq_text_content(ds),
        DocView::Indent(b) => text_content(*b),
        DocView::Group(b) => text_content(*b),
    }
}

/// The concatenation of all text over a sequence of documents.
pub open spec fn seq_text_content(ds: Seq<DocView>) -> Seq<char>
    decreases ds,
{
    if ds.len() == 0 {
        Seq::empty()
    } else {
        text_content(ds[0]) + seq_text_content(ds.drop_first())
    }
}

/// Printing a text-only document, under either flag and at any depth, only
/// appends its text content to the pending line: nothing reaches a flush.
pub proof fn lemma_text_only_print(
    d: DocView,
    flat: bool,
    depth: nat,
    cfg: FormatConfig,
    st: PrintState,
)
    requires
        text_only(d),
    ensures
        doc_print(d, flat, depth, cfg, st) == append_state(st, text_content(d)),
    decreases d,
{
    match d {
        DocView::Concat(ds) => {
            lemma_seq_text_only_print(ds, flat, depth, cfg, st);
        },
        _ => {
            assert(doc_print(d, flat, depth, cfg, st) =~= append_state(st, text_content(d)));
        },
    }
}

/// Printing a sequence of text-only documents appends their texts in order.
pub proof fn lemma_seq_text_only_print(
    ds: Seq<DocView>,
    flat: bool,
    depth: nat,
    cfg: FormatConfig,
    st: PrintState,
)
    requires
        seq_text_only(ds),
    ensures
        docs_print(ds, flat, depth, cfg, st) == append_state(st, seq_text_content(ds)),
    decreases ds,
{
    if ds.len() == 0 {
        assert(docs_print(ds, flat, depth, cfg, st) =~= append_state(st, seq_text_content(ds)));
    } else {
        lemma_text_only_print(ds[0], flat, depth, cfg, st);
        let st1 = append_state(st, text_content(ds[0]));
        lemma_seq_text_only_print(ds.drop_first(), flat, depth, cfg, st1);
        assert((st.line + text_content(ds[0])) + seq_text_content(ds.drop_first()) =~= st.line + (
        text_content(ds[0]) + seq_text_content(ds.drop_first())));
        assert(append_state(st1, seq_text_content(ds.drop_first())) =~= append_state(
            st,
            seq_text_content(ds),
        ));
    }
}

/// A sequence without trailing newlines is left unchanged by stripping.
pub proof fn lemma_strip_no_newline(s: Seq<char>)
    requires
        forall|j: int| 0 <= j < s.len() ==> s[j] != '\n',
    ensures
        strip_trailing_newlines(s) == s,
{
}

/// For a document of text, concatenation and `Nil` alone whose text holds
/// no newline, rendering yields exactly its text content followed by the
/// configured trailing-newline normalization: the text plus one newline
/// when a trailing newline is requested, the text alone when not.
pub proof fn lemma_text_only_render(d: DocView, cfg: FormatConfig)
    requires
        text_only(d),
        forall|j: int| 0 <= j < text_content(d).len() ==> text_content(d)[j] != '\n',
    ensures
        render(d, cfg) == if cfg.trailing_newline {
            text_content(d) + seq!['\n']
        } else {
            text_content(d)
        },
{
    lemma_text_only_print(d, false, 0, cfg, init_state());
    let tc = text_content(d);
    let st = doc_print(d, false, 0, cfg, init_state());
    assert(st.line =~= tc);
    let full = flush_state(cfg, 0, st).out;
    if tc.len() > 0 {
        assert(spaces(0) =~= Seq::<char>::empty());
        assert(full =~= tc + seq!['\n']);
    } else {
        assert(full =~= seq!['\n']);
        assert(tc + seq!['\n'] =~= seq!['\n']);
    }
    assert(full == tc + seq!['\n']);
    assert(full[full.len() - 1] == '\n');
    if !cfg.trailing_newline {
        assert((tc + seq!['\n']).drop_last() =~= tc);
        assert(strip_trailing_newlines(full) == strip_trailing_newlines(tc));
        lemma_strip_no_newline(tc);
    }
}

/// Dropping `Nil` entries is idempotent.
pub proof fn lemma_drop_nils_idempotent(ds: Seq<DocView>)
    ensures
        drop_nils(drop_nils(ds)) == drop_nils(ds),
    decreases ds.len(),
{
    if ds.len() > 0 {
        lemma_drop_nils_idempotent(ds.drop_first());
        if !(ds[0] is Nil) {
            lemma_drop_nils_cons(ds[0], drop_nils(ds.drop_first()));
        }
    }
}

/// Dropping `Nil` entries from a sequence with an explicit head keeps the
/// head exactly when it is not `Nil`.
pub proof fn lemma_drop_nils_cons(x: DocView, rest: Seq<DocView>)
    ensures
        drop_nils(seq![x] + rest) == (if x is Nil {
            drop_nils(rest)
        } else {
            seq![x] + drop_nils(rest)
        }),
{
    assert((seq![x] + rest)[0] == x);
    assert((seq![x] + rest).drop_first() =~= rest);
}

/// The absorption law: `Nil` entries are the identity of concatenation.
/// Building a concatenation from a sequence with `Nil` entries
/// interspersed yields the very same document as building it from the
/// sequence with those entries removed, and hence the same rendered
/// output.
pub proof fn lemma_concat_absorbs_nil(ds: Seq<DocView>, cfg: FormatConfig)
    ensures
        spec_concat(ds) == spec_concat(drop_nils(ds)),
        render(spec_concat(ds), cfg) == render(spec_concat(drop_nils(ds)), cfg),
{
    lemma_drop_nils_idempotent(ds);
}

/// Printing a sequence with an explicit head prints the head and then the
/// rest from the state the head left behind.
pub proof fn lemma_docs_print_cons(
    x: DocView,
    rest: Seq<DocView>,
    flat: bool,
    depth: nat,
    cfg: FormatConfig,
    st: PrintState,
)
    ensures
        docs_print(seq![x] + rest, flat, depth, cfg, st) == docs_print(
            rest,
            flat,
            depth,
            cfg,
            doc_print(x, flat, depth, cfg, st),
        ),
{
    assert((seq![x] + rest)[0] == x);
    assert((seq![x] + rest).drop_first() =~= rest);
}

/// Dropping `Nil` entries changes nothing about how a sequence prints.
pub proof fn lemma_docs_print_drop_nils(
    ds: Seq<DocView>,
    flat: bool,
    depth: nat,
    cfg: FormatConfig,
    st: PrintState,
)
    ensures
        docs_print(drop_nils(ds), flat, depth, cfg, st) == docs_print(ds, flat, depth, cfg, st),
    decreases ds.len(),
{
    if ds.len() > 0 {
        let st1 = doc_print(ds[0], flat, depth, cfg, st);
        if ds[0] is Nil {
            lemma_docs_print_drop_nils(ds.drop_first(), flat, depth, cfg, st);
        } else {
            lemma_docs_print_drop_nils(ds.drop_first(), flat, depth, cfg, st1);
            lemma_docs_print_cons(ds[0], drop_nils(ds.drop_first()), flat, depth, cfg, st);
        }
    }
}

/// Printing the document that `concat` builds equals printing the given
/// documents one after another: dropping `Nil` entries and collapsing a
/// single remaining child changes no output.
pub proof fn lemma_concat_print(
    ds: Seq<DocView>,
    flat: bool,
    depth: nat,
    cfg: FormatConfig,
    st: PrintState,
)
    ensures
        doc_print(spec_concat(ds), flat, depth, cfg, st) == docs_print(ds, flat, depth, cfg, st),
{
    reveal_with_fuel(docs_print, 3);
    lemma_docs_print_drop_nils(ds, flat, depth, cfg, st);
    let f = drop_nils(ds);
    if f.len() == 0 {
        assert(docs_print(f, flat, depth, cfg, st) == st);
    } else if f.len() == 1 {
        assert(f.drop_first() =~= Seq::<DocView>::empty());
        assert(docs_print(f, flat, depth, cfg, st) == doc_print(f[0], flat, depth, cfg, st));
    }
}

/// The shape of a join: joining no documents yields the empty document;
/// joining one yields that document itself; in general the join prints as
/// the given documents with the separator between each adjacent pair,
/// printed in sequence.
pub proof fn lemma_join_unfolds(
    ds: Seq<DocView>,
    sep: DocView,
    flat: bool,
    depth: nat,
    cfg: FormatConfig,
    st: PrintState,
)
    ensures
        ds.len() == 0 ==> spec_join(ds, sep) == DocView::Nil,
        ds.len() == 1 ==> spec_join(ds, sep) == ds[0],
        doc_print(spec_join(ds, sep), flat, depth, cfg, st) == docs_print(
            interleave(ds, sep),
            flat,
            depth,
            cfg,
            st,
        ),
{
    reveal_with_fuel(drop_nils, 3);
    if ds.len() == 0 {
        assert(interleave(ds, sep) =~= Seq::<DocView>::empty());
    } else {
        if ds.len() == 1 {
            assert(interleave(ds, sep) =~= seq![ds[0]]);
            assert(seq![ds[0]].drop_first() =~= Seq::<DocView>::empty());
            if ds[0] is Nil {
                assert(drop_nils(seq![ds[0]]) =~= Seq::<DocView>::empty());
            } else {
                assert(drop_nils(seq![ds[0]]) =~= seq![ds[0]]);
            }
        }
        lemma_concat_print(interleave(ds, sep), flat, depth, cfg, st);
    }
}

/// A group prints its child under a single fit decision: when the child
/// fits the remaining budget it is printed flat, and when it does not fit,
/// in particular whenever it contains a hardline, it is printed broken.
pub proof fn lemma_group_decision(
    c: DocView,
    flat: bool,
    depth: nat,
    cfg: FormatConfig,
    st: PrintState,
)
    ensures
        spec_fits(c, cfg, depth, st.line.len()) ==> doc_print(
            DocView::Group(Box::new(c)),
            flat,
            depth,
            cfg,
            st,
        ) == doc_print(c, true, depth, cfg, st),
        !spec_fits(c, cfg, depth, st.line.len()) ==> doc_print(
            DocView::Group(Box::new(c)),
            flat,
            depth,
            cfg,
            st,
        ) == doc_print(c, false, depth, cfg, st),
        has_hardline(c) ==> !spec_fits(c, cfg, depth, st.line.len()),
{
}

/// Whether the document contains no grouping scope, so that one fit
/// decision governs every softline in it.
pub open spec fn group_free(d: DocView) -> bool
    decreases d,
{
    match d {
        DocView::Nil => true,
        DocView::Text(_) => true,
        DocView::Hardline => true,
        DocView::Softline => true,
        DocView::Concat(ds) => seq_group_free(ds),
        DocView::Indent(b) => group_free(*b),
        DocView::Group(_) => false,
    }
}

/// Whether every document of the sequence is free of grouping scopes.
pub open spec fn seq_group_free(ds: Seq<DocView>) -> bool
    decreases ds,
{
    if ds.len() == 0 {
        true
    } else {
        group_free(ds[0]) && seq_group_free(ds.drop_first())
    }
}

/// The text a document produces when rendered flat: its texts in order
/// with one space for each softline.
pub open spec fn flat_render(d: DocView) -> Seq<char>
    decreases d,
{
    match d {
        DocView::Nil => Seq::empty(),
        DocView::Text(s) => s,
        DocView::Hardline => Seq::empty(),
        DocView::Softline => seq![' '],
        DocView::Concat(ds) => seq_flat_render(ds),
        DocView::Indent(b) => flat_render(*b),
        DocView::Group(b) => flat_render(*b),
    }
}

/// The flat rendering of a sequence of documents, concatenated in order.
pub open spec fn seq_flat_render(ds: Seq<DocView>) -> Seq<char>
    decreases ds,
{
    if ds.len() == 0 {
        Seq::empty()
    } else {
        flat_render(ds[0]) + seq_flat_render(ds.drop_first())
    }
}

/// A fitting group renders all its softlines as single spaces: printed
/// flat, a group-free document without hardlines commits nothing and
/// appends exactly its flat rendering, whose length is its flat width, to
/// the pending line.
pub proof fn lemma_flat_print(d: DocView, depth: nat, cfg: FormatConfig, st: PrintState)
    requires
        group_free(d),
        !has_hardline(d),
    ensures
        doc_print(d, true, depth, cfg, st).out == st.out,
        doc_print(d, true, depth, cfg, st).line == st.line + flat_render(d),
        flat_render(d).len() == flat_width(d),
    decreases d,
{
    match d {
        DocView::Concat(ds) => {
            lemma_seq_flat_print(ds, depth, cfg, st);
        },
        DocView::Indent(b) => {
            lemma_flat_print(*b, depth + 1, cfg, st);
        },
        _ => {
            assert(st.line + Seq::<char>::empty() =~= st.line);
        },
    }
}

/// Printed flat, a sequence of group-free documents without hardlines
/// appends the concatenation of their flat renderings.
pub proof fn lemma_seq_flat_print(ds: Seq<DocView>, depth: nat, cfg: FormatConfig, st: PrintState)
    requires
        seq_group_free(ds),
        !seq_has_hardline(ds),
    ensures
        docs_print(ds, true, depth, cfg, st).out == st.out,
        docs_print(ds, true, depth, cfg, st).line == st.line + seq_flat_render(ds),
        seq_flat_render(ds).len() == seq_flat_width(ds),
    decreases ds,
{
    if ds.len() == 0 {
        assert(st.line + Seq::<char>::empty() =~= st.line);
    } else {
        lemma_flat_print(ds[0], depth, cfg, st);
        let st1 = doc_print(ds[0], true, depth, cfg, st);
        lemma_seq_flat_print(ds.drop_first(), depth, cfg, st1);
        assert((st.line + flat_render(ds[0])) + seq_flat_render(ds.drop_first()) =~= st.line + (
        flat_render(ds[0]) + seq_flat_render(ds.drop_first())));
    }
}

/// The document with every softline replaced by a hardline.
pub open spec fn break_soft(d: DocView) -> DocView
    decreases d,
{
    match d {
        DocView::Nil => DocView::Nil,
        DocView::Text(s) => DocView::Text(s),
        DocView::Hardline => DocView::Hardline,
        DocView::Softline => DocView::Hardline,
        DocView::Concat(ds) => DocView::Concat(seq_break_soft(ds)),
        DocView::Indent(b) => DocView::Indent(Box::new(break_soft(*b))),
        DocView::Group(b) => DocView::Group(Box::new(break_soft(*b))),
    }
}

/// Every softline of every document in the sequence replaced by a hardline.
pub open spec fn seq_break_soft(ds: Seq<DocView>) -> Seq<DocView>
    decreases ds,
{
    if ds.len() == 0 {
        Seq::empty()
    } else {
        seq![break_soft(ds[0])] + seq_break_soft(ds.drop_first())
    }
}

/// A broken group renders all its softlines as newlines: printed broken, a
/// group-free document prints exactly as the same document with every
/// softline replaced by a hardline.
pub proof fn lemma_broken_print(d: DocView, depth: nat, cfg: FormatConfig, st: PrintState)
    requires
        group_free(d),
    ensures
        doc_print(d, false, depth, cfg, st) == doc_print(break_soft(d), false, depth, cfg, st),
    decreases d,
{
    match d {
        DocView::Concat(ds) => {
            lemma_seq_broken_print(ds, depth, cfg, st);
        },
        DocView::Indent(b) => {
            lemma_broken_print(*b, depth + 1, cfg, st);
        },
        _ => {},
    }
}

/// Printed broken, a sequence of group-free documents prints as the same
/// sequence with every softline replaced by a hardline.
pub proof fn lemma_seq_broken_print(
    ds: Seq<DocView>,
    depth: nat,
    cfg: FormatConfig,
    st: PrintState,
)
    requires
        seq_group_free(ds),
    ensures
        docs_print(ds, false, depth, cfg, st) == docs_print(
            seq_break_soft(ds),
            false,
            depth,
            cfg,
            st,
        ),
    decreases ds,
{
    if ds.len() > 0 {
        lemma_broken_print(ds[0], depth, cfg, st);
        let st1 = doc_print(ds[0], false, depth, cfg, st);
        lemma_seq_broken_print(ds.drop_first(), depth, cfg, st1);
        lemma_docs_print_cons(
            break_soft(ds[0]),
            seq_break_soft(ds.drop_first()),
            false,
            depth,
            cfg,
            st,
        );
    }
}

/// An indentation scope prints its child one level deeper, so every
/// newline-triggered flush of a non-empty line inside it writes exactly
/// one `indent_size` more leading spaces than the same flush would at the
/// enclosing depth; and a text-only child, which never reaches a flush,
/// prints the same at every depth: indentation has no effect on it.
pub proof fn lemma_indent_one_level(
    c: DocView,
    flat: bool,
    depth: nat,
    cfg: FormatConfig,
    st: PrintState,
)
    ensures
        doc_print(DocView::Indent(Box::new(c)), flat, depth, cfg, st) == doc_print(
            c,
            flat,
            depth + 1,
            cfg,
            st,
        ),
        st.line.len() > 0 ==> flush_state(cfg, depth + 1, st).out == st.out + spaces(
            (depth * cfg.indent_size) as nat,
        ) + spaces(cfg.indent_size as nat) + st.line + seq!['\n'],
        text_only(c) ==> doc_print(c, flat, depth + 1, cfg, st) == doc_print(
            c,
            flat,
            depth,
            cfg,
            st,
        ),
{
    if st.line.len() > 0 {
        assert((depth + 1) * cfg.indent_size == depth * cfg.indent_size + cfg.indent_size)
            by (nonlinear_arith);
        assert(spaces(((depth + 1) * cfg.indent_size) as nat) =~= spaces(
            (depth * cfg.indent_size) as nat,
        ) + spaces(cfg.indent_size as nat));
        assert(st.out + spaces(((depth + 1) * cfg.indent_size) as nat) =~= st.out + spaces(
            (depth * cfg.indent_size) as nat,
        ) + spaces(cfg.indent_size as nat));
        assert(flush_state(cfg, depth + 1, st).out =~= st.out + spaces(
            (depth * cfg.indent_size) as nat,
        ) + spaces(cfg.indent_size as nat) + st.line + seq!['\n']);
    }
    if text_only(c) {
        lemma_text_only_print(c, flat, depth + 1, cfg, st);
        lemma_text_only_print(c, flat, depth, cfg, st);
    }
}

/// Printing is a pure function of the document and the configuration: any
/// two outputs that satisfy the printer's contract for the same document
/// and configuration are identical, character for character.
pub proof fn lemma_print_deterministic(d: DocView, cfg: FormatConfig, r1: Seq<char>, r2: Seq<char>)
    requires
        r1 == render(d, cfg),
        r2 == render(d, cfg),
    ensures
        r1 == r2,
{
}

} // verus!
