//! The per-file lint context: the tree under analysis and the diagnostics
//! that rules add to it.
use vstd::prelude::*;
use vstd::string::StringSliceAdditionalSpecFns;
use vstd::utf8::is_char_boundary;

use crate::diagnostic::{DiagnosticView, Finding, LintDiagnostic, Position, Range, hint_view};
use crate::syntax::{BYTE_ORDER_MARK, MAX_SOURCE_LEN, Span, SyntaxTree};

verus! {

#[verifier::external_type_specification]
#[verifier::external_body]
pub struct ExMediaType(deno_ast::MediaType);

/// The 0-indexed line and column (in characters) of a byte position of a text.
pub uninterp spec fn line_and_column_of(text: Seq<char>, pos: usize) -> (usize, usize);

/// Relies on deno_ast's `SourceTextInfo::line_and_column_index`, which maps a
/// byte position of a text to its 0-indexed line and column. It panics on a
/// position past the end; it strips a leading byte order mark, and positions
/// are 32-bit.
#[verifier::external_body]
fn line_and_column_index(text: &str, pos: usize) -> (r: (usize, usize))
    requires
        pos <= text.spec_bytes().len() < MAX_SOURCE_LEN,
        text@.len() > 0 ==> text@[0] != BYTE_ORDER_MARK,
    ensures
        r == line_and_column_of(text@, pos),
{
    let info = deno_ast::SourceTextInfo::from_string(text.to_string());
    let loc = info.line_and_column_index(info.range().start + pos);
    (loc.line_index, loc.column_index)
}

pub struct Context {
    /// File name on which the rules run.
    file_name: String,
    /// The media type the file was parsed as.
    media_type: deno_ast::MediaType,
    /// Diagnostics, in the order in which they were added.
    diagnostics: Vec<LintDiagnostic>,
    /// The syntax tree of the file, which holds its text.
    program: SyntaxTree,
}

impl Context {
    pub closed spec fn tree(self) -> SyntaxTree {
        self.program
    }

    pub closed spec fn file_name_view(self) -> Seq<char> {
        self.file_name@
    }

    pub closed spec fn media_type_view(self) -> deno_ast::MediaType {
        self.media_type
    }

    /// The diagnostics added so far, in order.
    pub closed spec fn reported(self) -> Seq<DiagnosticView> {
        self.diagnostics@.map_values(|d: LintDiagnostic| d@)
    }

    pub open spec fn wf(self) -> bool {
        &&& self.tree().wf()
        &&& forall|i: int|
            0 <= i < self.reported().len() ==> #[trigger] self.reported()[i].range.start.byte_pos
                <= self.reported()[i].range.end.byte_pos
    }

    /// `span` lies within the source text.
    pub open spec fn span_in_source(self, span: Span) -> bool {
        span.lo <= span.hi <= self.tree().bytes().len()
    }

    pub open spec fn position_at(self, pos: usize) -> Position {
        let lc = line_and_column_of(self.tree().source_text(), pos);
        Position { line_index: lc.0, column_index: lc.1, byte_pos: pos }
    }

    pub open spec fn range_of(self, span: Span) -> Range {
        Range { start: self.position_at(span.lo), end: self.position_at(span.hi) }
    }

    /// The diagnostic that a finding becomes in this file.
    pub open spec fn render(self, f: Finding) -> DiagnosticView {
        DiagnosticView {
            code: f.code,
            filename: self.file_name_view(),
            hint: f.hint,
            message: f.message,
            range: self.range_of(f.span),
        }
    }

    pub open spec fn render_all(self, fs: Seq<Finding>) -> Seq<DiagnosticView> {
        fs.map_values(|f: Finding| self.render(f))
    }

    /// `after` is this context with the diagnostics of `fs` appended.
    pub open spec fn appended(self, after: Context, fs: Seq<Finding>) -> bool {
        &&& after.wf()
        &&& after.tree() == self.tree()
        &&& after.file_name_view() == self.file_name_view()
        &&& after.media_type_view() == self.media_type_view()
        &&& after.reported() == self.reported() + self.render_all(fs)
    }

    /// Appending `fs` and then `gs` appends `fs + gs`.
    pub proof fn lemma_appended_trans(self, mid: Context, after: Context, fs: Seq<Finding>, gs: Seq<Finding>)
        requires
            self.appended(mid, fs),
            mid.appended(after, gs),
        ensures
            self.appended(after, fs + gs),
    {
        assert(mid.render_all(gs) =~= self.render_all(gs));
        assert(self.render_all(fs + gs) =~= self.render_all(fs) + self.render_all(gs));
        assert(after.reported() =~= self.reported() + self.render_all(fs + gs));
    }

    /// Appending nothing.
    pub proof fn lemma_appended_none(self)
        requires
            self.wf(),
        ensures
            self.appended(self, Seq::empty()),
    {
        assert(self.render_all(Seq::empty()) =~= Seq::<DiagnosticView>::empty());
        assert(self.reported() + self.render_all(Seq::empty()) =~= self.reported());
    }

    pub fn new(file_name: String, media_type: deno_ast::MediaType, program: SyntaxTree) -> (r:
        Context)
        requires
            program.wf(),
        ensures
            r.wf(),
            r.tree() == program,
            r.file_name_view() == file_name@,
            r.media_type_view() == media_type,
            r.reported() == Seq::<DiagnosticView>::empty(),
    {
        let r = Context { file_name, media_type, diagnostics: Vec::new(), program };
        assert(r.reported() =~= Seq::<DiagnosticView>::empty());
        r
    }

    pub(crate) fn create_diagnostic(
        &self,
        span: Span,
        code: &str,
        message: &str,
        maybe_hint: Option<String>,
    ) -> (r: LintDiagnostic)
        requires
            self.wf(),
            self.span_in_source(span),
        ensures
            r@ == self.render(Finding { span, code: code@, message: message@, hint: hint_view(maybe_hint) }),
    {
        proof {
            self.program.lemma_tree();
        }
        let text = self.program.source();
        let (start_line, start_column) = line_and_column_index(text, span.lo);
        let (end_line, end_column) = line_and_column_index(text, span.hi);
        let start = Position::new(span.lo, start_line, start_column);
        let end = Position::new(span.hi, end_line, end_column);
        LintDiagnostic {
            range: Range { start, end },
            filename: self.file_name.clone(),
            message: message.to_owned(),
            code: code.to_owned(),
            hint: maybe_hint,
        }
    }

    fn push_diagnostic(&mut self, d: LintDiagnostic)
        requires
            old(self).wf(),
            d.range.start.byte_pos <= d.range.end.byte_pos,
        ensures
            final(self).wf(),
            final(self).tree() == old(self).tree(),
            final(self).file_name_view() == old(self).file_name_view(),
            final(self).media_type_view() == old(self).media_type_view(),
            final(self).reported() == old(self).reported().push(d@),
    {
        self.diagnostics.push(d);
        assert(self.reported() =~= old(self).reported().push(d@));
    }

    /// Appends a diagnostic without a hint, placed at `span`.
    pub fn add_diagnostic(&mut self, span: Span, code: &str, message: &str)
        requires
            old(self).wf(),
            old(self).span_in_source(span),
        ensures
            old(self).appended(
                *final(self),
                seq![Finding { span, code: code@, message: message@, hint: None }],
            ),
    {
        let d = self.create_diagnostic(span, code, message, None);
        self.push_diagnostic(d);
        proof {
            let f = Finding { span, code: code@, message: message@, hint: None };
            assert(old(self).render_all(seq![f]) =~= seq![old(self).render(f)]);
            assert(self.reported() =~= old(self).reported() + old(self).render_all(seq![f]));
        }
    }

    /// Appends a diagnostic with a hint, placed at `span`.
    pub fn add_diagnostic_with_hint(&mut self, span: Span, code: &str, message: &str, hint: &str)
        requires
            old(self).wf(),
            old(self).span_in_source(span),
        ensures
            old(self).appended(
                *final(self),
                seq![Finding { span, code: code@, message: message@, hint: Some(hint@) }],
            ),
    {
        let d = self.create_diagnostic(span, code, message, Some(hint.to_owned()));
        self.push_diagnostic(d);
        proof {
            let f = Finding { span, code: code@, message: message@, hint: Some(hint@) };
            assert(old(self).render_all(seq![f]) =~= seq![old(self).render(f)]);
            assert(self.reported() =~= old(self).reported() + old(self).render_all(seq![f]));
        }
    }

    pub fn diagnostics(&self) -> (r: &[LintDiagnostic])
        ensures
            r@.map_values(|d: LintDiagnostic| d@) == self.reported(),
    {
        self.diagnostics.as_slice()
    }

    pub fn file_name(&self) -> (r: &str)
        ensures
            r@ == self.file_name_view(),
    {
        self.file_name.as_str()
    }

    /// The source text that `span` covers. Both ends must fall on character
    /// boundaries.
    pub fn file_text_substring(&self, span: &Span) -> (r: &str)
        requires
            self.span_in_source(*span),
            is_char_boundary(self.tree().bytes(), span.lo as int),
            is_char_boundary(self.tree().bytes(), span.hi as int),
        ensures
            r.spec_bytes() == self.tree().bytes().subrange(span.lo as int, span.hi as int),
    {
        let text = self.program.source();
        let (_, rest) = text.split_at(span.lo);
        proof {
            let b = self.tree().bytes();
            assert(rest.spec_bytes() =~= b.subrange(span.lo as int, b.len() as int));
            let rb = rest.spec_bytes();
            let k = (span.hi - span.lo) as int;
            vstd::utf8::encode_utf8_valid_utf8(text@);
            vstd::utf8::valid_utf8_split(b, span.lo as int);
            vstd::utf8::is_char_boundary_start_end_of_seq(rb);
            if k < rb.len() {
                if span.hi < b.len() {
                    vstd::utf8::is_char_boundary_iff_not_is_continuation_byte(b, span.hi as int);
                }
                vstd::utf8::is_char_boundary_iff_not_is_continuation_byte(rb, k);
                assert(rb[k] == b[span.hi as int]);
            }
            assert(is_char_boundary(rb, k));
        }
        let (mid, _) = rest.split_at(span.hi - span.lo);
        proof {
            let b = self.tree().bytes();
            assert(mid.spec_bytes() =~= b.subrange(span.lo as int, span.hi as int));
        }
        mid
    }

    pub fn media_type(&self) -> (r: deno_ast::MediaType)
        ensures
            r == self.media_type_view(),
    {
        self.media_type
    }

    pub fn program(&self) -> (r: &SyntaxTree)
        ensures
            *r == self.tree(),
    {
        &self.program
    }

    /// The text of the file.
    pub fn source_file(&self) -> (r: &str)
        ensures
            r@ == self.tree().source_text(),
    {
        self.program.source()
    }
}

} // verus!
