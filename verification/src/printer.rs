use vstd::prelude::*;

use crate::config::FormatConfig;
use crate::ir::{docs_view, Doc, DocView};
use crate::text::chars_to_string;

verus! {

/// `n` spaces.
pub open spec fn spaces(n: nat) -> Seq<char> {
    Seq::new(n, |i: int| ' ')
}

/// The printer's evolving state: the committed output and the pending
/// line, text not yet committed because no break has occurred since the
/// last newline.
#[verifier::ext_equal]
pub struct PrintState {
    pub out: Seq<char>,
    pub line: Seq<char>,
}

/// The empty state a printer starts from.
pub open spec fn init_state() -> PrintState {
    PrintState { out: Seq::<char>::empty(), line: Seq::<char>::empty() }
}

/// Appending text to the pending line.
pub open spec fn append_state(st: PrintState, s: Seq<char>) -> PrintState {
    PrintState { out: st.out, line: st.line + s }
}

/// One flush: when the pending line is non-empty it is committed to the
/// output behind the indentation of the current depth; a newline is
/// appended either way, so a flush of an empty line preserves a blank
/// line. Depth changes affect only how later flushes compute their
/// leading whitespace, never output already committed.
pub open spec fn flush_state(cfg: FormatConfig, depth: nat, st: PrintState) -> PrintState {
    if st.line.len() > 0 {
        PrintState {
            out: st.out + spaces((depth * cfg.indent_size) as nat) + st.line + seq!['\n'],
            line: Seq::<char>::empty(),
        }
    } else {
        PrintState { out: st.out + seq!['\n'], line: st.line }
    }
}

/// Whether the document contains an unconditional line break anywhere.
/// A group containing one can never be rendered flat.
pub open spec fn has_hardline(d: DocView) -> bool
    decreases d,
{
    match d {
        DocView::Nil => false,
        DocView::Text(_) => false,
        DocView::Hardline => true,
        DocView::Softline => false,
        DocView::Concat(ds) => seq_has_hardline(ds),
        DocView::Indent(b) => has_hardline(*b),
        DocView::Group(b) => has_hardline(*b),
    }
}

/// Whether any document in the sequence contains an unconditional break.
pub open spec fn seq_has_hardline(ds: Seq<DocView>) -> bool
    decreases ds,
{
    if ds.len() == 0 {
        false
    } else {
        has_hardline(ds[0]) || seq_has_hardline(ds.drop_first())
    }
}

/// The width the document would occupy rendered flat: the sum of its text
/// lengths with one column per softline. Indentation and grouping add
/// nothing, and a nested group is measured as if it too were flat. All
/// widths in this module count characters (Unicode scalar values), one
/// column each; for ASCII text this coincides with the byte count.
pub open spec fn flat_width(d: DocView) -> nat
    decreases d,
{
    match d {
        DocView::Nil => 0,
        DocView::Text(s) => s.len(),
        DocView::Hardline => 0,
        DocView::Softline => 1,
        DocView::Concat(ds) => seq_flat_width(ds),
        DocView::Indent(b) => flat_width(*b),
        DocView::Group(b) => flat_width(*b),
    }
}

/// The flat width of a sequence of documents: the sum over its elements.
pub open spec fn seq_flat_width(ds: Seq<DocView>) -> nat
    decreases ds,
{
    if ds.len() == 0 {
        0
    } else {
        flat_width(ds[0]) + seq_flat_width(ds.drop_first())
    }
}

/// The column budget that remains on the current line: the maximum width
/// less what the indentation and the pending line already occupy, floored
/// at zero.
pub open spec fn remaining_budget(cfg: FormatConfig, depth: nat, line_len: nat) -> nat {
    if depth * cfg.indent_size + line_len <= cfg.max_width {
        (cfg.max_width - (depth * cfg.indent_size + line_len)) as nat
    } else {
        0
    }
}

/// Whether a group is rendered flat: it contains no hardline and its flat
/// width is within the remaining budget on the current line.
pub open spec fn spec_fits(d: DocView, cfg: FormatConfig, depth: nat, line_len: nat) -> bool {
    &&& !has_hardline(d)
    &&& flat_width(d) <= remaining_budget(cfg, depth, line_len)
}

/// The effect of printing one document on the printer state. `flat` is the
/// fit decision inherited from the nearest enclosing group and `depth` the
/// current indentation depth.
pub open spec fn doc_print(
    d: DocView,
    flat: bool,
    depth: nat,
    cfg: FormatConfig,
    st: PrintState,
) -> PrintState
    decreases d,
{
    match d {
        DocView::Nil => st,
        DocView::Text(s) => append_state(st, s),
        DocView::Hardline => flush_state(cfg, depth, st),
        DocView::Softline => if flat {
            append_state(st, seq![' '])
        } else {
            flush_state(cfg, depth, st)
        },
        DocView::Concat(ds) => docs_print(ds, flat, depth, cfg, st),
        DocView::Indent(b) => doc_print(*b, flat, depth + 1, cfg, st),
        DocView::Group(b) => doc_print(
            *b,
            spec_fits(*b, cfg, depth, st.line.len()),
            depth,
            cfg,
            st,
        ),
    }
}

/// The effect of printing each document of the sequence in order.
pub open spec fn docs_print(
    ds: Seq<DocView>,
    flat: bool,
    depth: nat,
    cfg: FormatConfig,
    st: PrintState,
) -> PrintState
    decreases ds,
{
    if ds.len() == 0 {
        st
    } else {
        docs_print(ds.drop_first(), flat, depth, cfg, doc_print(ds[0], flat, depth, cfg, st))
    }
}

/// The output with every trailing newline removed.
pub open spec fn strip_trailing_newlines(s: Seq<char>) -> Seq<char>
    decreases s.len(),
{
    if s.len() > 0 && s[s.len() - 1] == '\n' {
        strip_trailing_newlines(s.drop_last())
    } else {
        s
    }
}

/// The trailing-newline policy: append a newline when one is requested and
/// absent, otherwise strip all trailing newlines.
pub open spec fn normalize_trailing(s: Seq<char>, trailing: bool) -> Seq<char> {
    if trailing {
        if s.len() > 0 && s[s.len() - 1] == '\n' {
            s
        } else {
            s + seq!['\n']
        }
    } else {
        strip_trailing_newlines(s)
    }
}

/// The full rendering of a document: print it from the empty state at
/// depth zero with no enclosing group, flush the pending line, then apply
/// the trailing-newline policy.
pub open spec fn render(d: DocView, cfg: FormatConfig) -> Seq<char> {
    let st = flush_state(cfg, 0, doc_print(d, false, 0, cfg, init_state()));
    normalize_trailing(st.out, cfg.trailing_newline)
}

/// The deepest nesting of indentation scopes in the document.
pub open spec fn indent_depth(d: DocView) -> nat
    decreases d,
{
    match d {
        DocView::Nil => 0,
        DocView::Text(_) => 0,
        DocView::Hardline => 0,
        DocView::Softline => 0,
        DocView::Concat(ds) => seq_indent_depth(ds),
        DocView::Indent(b) => indent_depth(*b) + 1,
        DocView::Group(b) => indent_depth(*b),
    }
}

/// The deepest nesting of indentation scopes over a sequence of documents.
pub open spec fn seq_indent_depth(ds: Seq<DocView>) -> nat
    decreases ds,
{
    if ds.len() == 0 {
        0
    } else if indent_depth(ds[0]) >= seq_indent_depth(ds.drop_first()) {
        indent_depth(ds[0])
    } else {
        seq_indent_depth(ds.drop_first())
    }
}

/// No element of a sequence nests indentation deeper than the sequence does.
pub proof fn lemma_seq_indent_depth_element(ds: Seq<DocView>, i: int)
    requires
        0 <= i < ds.len(),
    ensures
        indent_depth(ds[i]) <= seq_indent_depth(ds),
    decreases ds.len(),
{
    if i > 0 {
        lemma_seq_indent_depth_element(ds.drop_first(), i - 1);
    }
}

/// A hardline in any element is a hardline in the sequence.
pub proof fn lemma_seq_has_hardline_element(ds: Seq<DocView>, i: int)
    requires
        0 <= i < ds.len(),
        has_hardline(ds[i]),
    ensures
        seq_has_hardline(ds),
    decreases ds.len(),
{
    if i > 0 {
        lemma_seq_has_hardline_element(ds.drop_first(), i - 1);
    }
}

/// The flat width of a sequence is at least the width of any prefix plus
/// the width of the element that follows it.
pub proof fn lemma_seq_flat_width_lower(ds: Seq<DocView>, i: int)
    requires
        0 <= i < ds.len(),
    ensures
        seq_flat_width(ds) >= seq_flat_width(ds.take(i)) + flat_width(ds[i]),
    decreases ds.len(),
{
    if i == 0 {
        assert(ds.take(0) =~= Seq::<DocView>::empty());
    } else {
        lemma_seq_flat_width_lower(ds.drop_first(), i - 1);
        assert(ds.drop_first().take(i - 1) =~= ds.take(i).drop_first());
        assert(seq_flat_width(ds.take(i)) == flat_width(ds[0]) + seq_flat_width(
            ds.take(i).drop_first(),
        ));
    }
}

/// Extending a sequence by one document adds that document's flat width.
pub proof fn lemma_seq_flat_width_push(ds: Seq<DocView>, x: DocView)
    ensures
        seq_flat_width(ds.push(x)) == seq_flat_width(ds) + flat_width(x),
    decreases ds.len(),
{
    reveal_with_fuel(seq_flat_width, 3);
    if ds.len() == 0 {
        assert(ds.push(x).drop_first() =~= Seq::<DocView>::empty());
    } else {
        assert(ds.push(x).drop_first() =~= ds.drop_first().push(x));
        lemma_seq_flat_width_push(ds.drop_first(), x);
    }
}

/// Extending a sequence by one document keeps a hardline exactly when the
/// sequence had one or the new document has one.
pub proof fn lemma_seq_has_hardline_push(ds: Seq<DocView>, x: DocView)
    ensures
        seq_has_hardline(ds.push(x)) == (seq_has_hardline(ds) || has_hardline(x)),
    decreases ds.len(),
{
    reveal_with_fuel(seq_has_hardline, 3);
    if ds.len() == 0 {
        assert(ds.push(x).drop_first() =~= Seq::<DocView>::empty());
    } else {
        assert(ds.push(x).drop_first() =~= ds.drop_first().push(x));
        lemma_seq_has_hardline_push(ds.drop_first(), x);
    }
}

/// Printing a sequence extended by one document prints the sequence and
/// then that document from the state the sequence left behind.
pub proof fn lemma_docs_print_push(
    ds: Seq<DocView>,
    x: DocView,
    flat: bool,
    depth: nat,
    cfg: FormatConfig,
    st: PrintState,
)
    ensures
        docs_print(ds.push(x), flat, depth, cfg, st) == doc_print(
            x,
            flat,
            depth,
            cfg,
            docs_print(ds, flat, depth, cfg, st),
        ),
    decreases ds.len(),
{
    reveal_with_fuel(docs_print, 3);
    if ds.len() == 0 {
        assert(ds.push(x).drop_first() =~= Seq::<DocView>::empty());
    } else {
        assert(ds.push(x).drop_first() =~= ds.drop_first().push(x));
        lemma_docs_print_push(
            ds.drop_first(),
            x,
            flat,
            depth,
            cfg,
            doc_print(ds[0], flat, depth, cfg, st),
        );
    }
}

/// Appends each character of `s` to `buf` in order.
fn push_str_chars(buf: &mut Vec<char>, s: &str)
    ensures
        final(buf)@ == old(buf)@ + s@,
{
    let n = s.unicode_len();
    let mut i: usize = 0;
    proof {
        assert(old(buf)@ + s@.subrange(0, 0) =~= old(buf)@);
    }
    while i < n
        invariant
            i <= n,
            n == s@.len(),
            buf@ == old(buf)@ + s@.subrange(0, i as int),
        decreases n - i,
    {
        let c = s.get_char(i);
        buf.push(c);
        proof {
            assert(s@.subrange(0, i + 1) =~= s@.subrange(0, i as int).push(s@[i as int]));
            assert(old(buf)@ + s@.subrange(0, i + 1) =~= (old(buf)@ + s@.subrange(
                0,
                i as int,
            )).push(s@[i as int]));
        }
        i = i + 1;
    }
    proof {
        assert(s@.subrange(0, n as int) =~= s@);
    }
}

/// Appends `n` spaces to `buf`.
fn push_spaces(buf: &mut Vec<char>, n: usize)
    ensures
        final(buf)@ == old(buf)@ + spaces(n as nat),
{
    let mut k: usize = 0;
    proof {
        assert(old(buf)@ + spaces(0) =~= old(buf)@);
    }
    while k < n
        invariant
            k <= n,
            buf@ == old(buf)@ + spaces(k as nat),
        decreases n - k,
    {
        buf.push(' ');
        proof {
            assert(old(buf)@ + spaces((k + 1) as nat) =~= (old(buf)@ + spaces(k as nat)).push(
                ' ',
            ));
        }
        k = k + 1;
    }
}

/// Renders a document to text: a recursive descent over the tree that
/// appends to a pending line and commits it to the output at each break.
pub struct Printer {
    config: FormatConfig,
    output: Vec<char>,
    current_line: Vec<char>,
    indent: usize,
}

impl Printer {
    /// The configuration this printer renders under.
    pub closed spec fn cfg(self) -> FormatConfig {
        self.config
    }

    /// The abstract state of the printer's buffers.
    pub closed spec fn state(self) -> PrintState {
        PrintState { out: self.output@, line: self.current_line@ }
    }

    /// A freshly constructed printer: empty buffers at indentation zero.
    pub closed spec fn fresh(self) -> bool {
        &&& self.state() == init_state()
        &&& self.indent == 0
    }

    /// A printer that renders under the given configuration.
    pub fn new(config: &FormatConfig) -> (p: Printer)
        ensures
            p.cfg() == *config,
            p.fresh(),
    {
        let p = Printer {
            config: *config,
            output: Vec::new(),
            current_line: Vec::new(),
            indent: 0,
        };
        proof {
            assert(p.state() =~= init_state());
        }
        p
    }

    /// Commits the pending line: when non-empty it is written to the
    /// output behind the indentation of the current depth; a newline is
    /// written either way.
    fn flush(&mut self)
        ensures
            final(self).config == old(self).config,
            final(self).indent == old(self).indent,
            final(self).state() == flush_state(
                old(self).config,
                old(self).indent as nat,
                old(self).state(),
            ),
    {
        if self.current_line.len() > 0 {
            let levels = self.indent;
            let mut lvl: usize = 0;
            proof {
                assert(self.output@ + spaces(0) =~= self.output@);
            }
            while lvl < levels
                invariant
                    lvl <= levels,
                    self.config == old(self).config,
                    self.indent == old(self).indent,
                    levels == old(self).indent,
                    self.current_line@ == old(self).current_line@,
                    self.output@ == old(self).output@ + spaces(
                        (lvl * self.config.indent_size) as nat,
                    ),
                decreases levels - lvl,
            {
                push_spaces(&mut self.output, self.config.indent_size);
                proof {
                    assert((lvl + 1) * self.config.indent_size == lvl * self.config.indent_size
                        + self.config.indent_size) by (nonlinear_arith);
                    assert(spaces(((lvl + 1) * self.config.indent_size) as nat) =~= spaces(
                        (lvl * self.config.indent_size) as nat,
                    ) + spaces(self.config.indent_size as nat));
                    assert(old(self).output@ + spaces(((lvl + 1) * self.config.indent_size) as nat)
                        =~= old(self).output@ + spaces((lvl * self.config.indent_size) as nat)
                        + spaces(self.config.indent_size as nat));
                }
                lvl = lvl + 1;
            }
            self.output.append(&mut self.current_line);
            self.output.push('\n');
            proof {
                let st = flush_state(old(self).config, old(self).indent as nat, old(self).state());
                assert(self.output@ =~= st.out);
                assert(self.current_line@ =~= st.line);
                assert(self.state() =~= st);
            }
        } else {
            self.output.push('\n');
            proof {
                let st = flush_state(old(self).config, old(self).indent as nat, old(self).state());
                assert(self.output@ =~= st.out);
                assert(self.state() =~= st);
            }
        }
    }

    /// The flat width of the document: `Some` of the structural sum when
    /// the document has no hardline and the sum fits a machine word,
    /// `None` otherwise, so that `None` never fits.
    fn measure(&self, doc: &Doc) -> (r: Option<usize>)
        ensures
            match r {
                Some(w) => !has_hardline(doc@) && flat_width(doc@) == w,
                None => has_hardline(doc@) || flat_width(doc@) > usize::MAX,
            },
        decreases *doc,
    {
        match doc {
            Doc::Nil => Some(0),
            Doc::Text(s) => Some(s.as_str().unicode_len()),
            Doc::Hardline => None,
            Doc::Softline => Some(1),
            Doc::Concat(ds) => self.measure_docs(ds),
            Doc::Indent(b) => self.measure(&**b),
            Doc::Group(b) => self.measure(&**b),
        }
    }

    /// The flat width summed over a sequence of documents, `None` on a
    /// hardline or when the sum leaves a machine word.
    fn measure_docs(&self, ds: &Vec<Doc>) -> (r: Option<usize>)
        ensures
            match r {
                Some(w) => !seq_has_hardline(docs_view(ds@)) && seq_flat_width(docs_view(ds@))
                    == w,
                None => seq_has_hardline(docs_view(ds@)) || seq_flat_width(docs_view(ds@))
                    > usize::MAX,
            },
        decreases *ds,
    {
        let ghost vs = docs_view(ds@);
        let mut total: usize = 0;
        let mut i: usize = 0;
        proof {
            crate::ir::lemma_docs_view_len(ds@);
            assert(vs.take(0) =~= Seq::<DocView>::empty());
        }
        while i < ds.len()
            invariant
                i <= ds@.len(),
                vs == docs_view(ds@),
                vs.len() == ds@.len(),
                !seq_has_hardline(vs.take(i as int)),
                total == seq_flat_width(vs.take(i as int)),
            decreases ds@.len() - i,
        {
            proof {
                crate::ir::lemma_docs_view_index(ds@, i as int);
            }
            match self.measure(&ds[i]) {
                None => {
                    proof {
                        if has_hardline(vs[i as int]) {
                            lemma_seq_has_hardline_element(vs, i as int);
                        } else {
                            lemma_seq_flat_width_lower(vs, i as int);
                        }
                    }
                    return None;
                },
                Some(w) => {
                    match total.checked_add(w) {
                        None => {
                            proof {
                                lemma_seq_flat_width_lower(vs, i as int);
                            }
                            return None;
                        },
                        Some(t) => {
                            proof {
                                assert(vs.take(i + 1) =~= vs.take(i as int).push(vs[i as int]));
                                lemma_seq_flat_width_push(vs.take(i as int), vs[i as int]);
                                lemma_seq_has_hardline_push(vs.take(i as int), vs[i as int]);
                            }
                            total = t;
                        },
                    }
                },
            }
            i = i + 1;
        }
        proof {
            assert(vs.take(ds@.len() as int) =~= vs);
        }
        Some(total)
    }

    /// Whether the document fits flat in the budget that remains on the
    /// current line.
    fn fits(&self, doc: &Doc) -> (r: bool)
        ensures
            r == spec_fits(doc@, self.config, self.indent as nat, self.current_line@.len()),
    {
        let remaining: usize = match self.indent.checked_mul(self.config.indent_size) {
            Some(iw) => match iw.checked_add(self.current_line.len()) {
                Some(cw) => self.config.max_width.saturating_sub(cw),
                None => 0,
            },
            None => 0,
        };
        proof {
            assert(remaining == remaining_budget(
                self.config,
                self.indent as nat,
                self.current_line@.len(),
            ));
        }
        match self.measure(doc) {
            Some(w) => w <= remaining,
            None => false,
        }
    }

    /// Prints one document: text and flat softlines grow the pending
    /// line; breaks flush it behind the current depth's indentation;
    /// indentation scopes deepen the depth around their child; a group
    /// decides its fit once and prints its child under that decision.
    fn print_doc(&mut self, doc: &Doc, flat: bool)
        requires
            old(self).indent + indent_depth(doc@) <= usize::MAX,
        ensures
            final(self).config == old(self).config,
            final(self).indent == old(self).indent,
            final(self).state() == doc_print(
                doc@,
                flat,
                old(self).indent as nat,
                old(self).config,
                old(self).state(),
            ),
        decreases *doc,
    {
        match doc {
            Doc::Nil => {},
            Doc::Text(s) => {
                push_str_chars(&mut self.current_line, s.as_str());
                proof {
                    assert(self.state() =~= append_state(old(self).state(), s@));
                }
            },
            Doc::Hardline => {
                self.flush();
            },
            Doc::Softline => {
                if flat {
                    self.current_line.push(' ');
                    proof {
                        assert(self.current_line@ =~= old(self).current_line@ + seq![' ']);
                        assert(self.state() =~= append_state(old(self).state(), seq![' ']));
                    }
                } else {
                    self.flush();
                }
            },
            Doc::Concat(ds) => {
                self.print_docs(ds, flat);
            },
            Doc::Indent(b) => {
                self.indent = self.indent + 1;
                self.print_doc(&**b, flat);
                self.indent = self.indent - 1;
            },
            Doc::Group(b) => {
                let fits = self.fits(&**b);
                self.print_doc(&**b, fits);
            },
        }
    }

    /// Prints each document of the sequence in order under one flag.
    fn print_docs(&mut self, ds: &Vec<Doc>, flat: bool)
        requires
            old(self).indent + seq_indent_depth(docs_view(ds@)) <= usize::MAX,
        ensures
            final(self).config == old(self).config,
            final(self).indent == old(self).indent,
            final(self).state() == docs_print(
                docs_view(ds@),
                flat,
                old(self).indent as nat,
                old(self).config,
                old(self).state(),
            ),
        decreases *ds,
    {
        let ghost vs = docs_view(ds@);
        let mut i: usize = 0;
        proof {
            crate::ir::lemma_docs_view_len(ds@);
            assert(vs.take(0) =~= Seq::<DocView>::empty());
        }
        while i < ds.len()
            invariant
                i <= ds@.len(),
                vs == docs_view(ds@),
                vs.len() == ds@.len(),
                self.config == old(self).config,
                self.indent == old(self).indent,
                old(self).indent + seq_indent_depth(vs) <= usize::MAX,
                self.state() == docs_print(
                    vs.take(i as int),
                    flat,
                    old(self).indent as nat,
                    old(self).config,
                    old(self).state(),
                ),
            decreases ds@.len() - i,
        {
            proof {
                crate::ir::lemma_docs_view_index(ds@, i as int);
                lemma_seq_indent_depth_element(vs, i as int);
            }
            self.print_doc(&ds[i], flat);
            proof {
                assert(vs.take(i + 1) =~= vs.take(i as int).push(vs[i as int]));
                lemma_docs_print_push(
                    vs.take(i as int),
                    vs[i as int],
                    flat,
                    old(self).indent as nat,
                    old(self).config,
                    old(self).state(),
                );
            }
            i = i + 1;
        }
        proof {
            assert(vs.take(ds@.len() as int) =~= vs);
        }
    }

    /// Renders the document and returns the finished text, normalized by
    /// the trailing-newline policy.
    pub fn print(self, doc: &Doc) -> (r: String)
        requires
            self.fresh(),
            indent_depth(doc@) <= usize::MAX,
        ensures
            r@ == render(doc@, self.cfg()),
    {
        let mut p = self;
        p.print_doc(doc, false);
        p.flush();
        let ghost full = p.output@;
        if p.config.trailing_newline {
            let len = p.output.len();
            let needs_newline = if len == 0 {
                true
            } else {
                p.output[len - 1] != '\n'
            };
            if needs_newline {
                p.output.push('\n');
                proof {
                    assert(p.output@ =~= full + seq!['\n']);
                }
            }
        } else {
            loop
                invariant
                    strip_trailing_newlines(p.output@) == strip_trailing_newlines(full),
                ensures
                    p.output@ == strip_trailing_newlines(full),
                decreases p.output@.len(),
            {
                let len = p.output.len();
                if len == 0 {
                    break ;
                }
                if p.output[len - 1] != '\n' {
                    break ;
                }
                p.output.pop();
            }
        }
        chars_to_string(&p.output)
    }
}

/// Renders the document under the given configuration.
pub fn print(doc: &Doc, config: &FormatConfig) -> (r: String)
    requires
        indent_depth(doc@) <= usize::MAX,
    ensures
        r@ == render(doc@, *config),
{
    Printer::new(config).print(doc)
}

} // verus!
