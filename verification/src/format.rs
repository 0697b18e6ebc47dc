use vstd::prelude::*;
use vstd::string::StringSliceAdditionalSpecFns;

use crate::ast::{Loc, ModuleBody};
use crate::comment_insertion::{comment_triple, triple, Comment, CommentMap};
use crate::config::Config;
use crate::document::{
    debug_doc, debug_print, is_blank, no_verbatim, print_doc, print_resolved, printable, DocumentIdx, DocumentView,
    InternedDocumentStore, Writer, WriterState,
};
use crate::buildable::module_body_ok;
use crate::document_builder::{
    checked_slice, reported_count, spans_outside, BuildDiagnostic, DocumentBuilder,
};
use crate::resolve::{extends, fits_resolution, resolve_try_catch, Cursor, PrintingContext};

verus! {

/// The result of successfully formatting a source file.
pub struct Formatted {
    /// Formatted source with LF line endings, ending with a newline, and no
    /// trailing whitespace outside string literals; empty for an input with
    /// no content.
    pub text: String,
    /// Rendered non-fatal parser diagnostics, empty if there were none.
    pub diagnostics: String,
    /// Comments no claim site attached anywhere; they are appended at the
    /// end of the output instead (never lost). Nonzero means a comment
    /// placement bug.
    pub unclaimed_comments: usize,
}

/// Why a source file could not be formatted.
#[derive(Debug)]
pub enum FormatError {
    /// Parsing failed; `diagnostics` holds the rendered errors.
    Parse { diagnostics: String },
    /// The input contains constructs the document builder does not support
    /// yet; `diagnostics` holds the errors, one per construct.
    Unsupported { diagnostics: Vec<BuildDiagnostic> },
    /// The document is too deep to render.
    Print,
}

impl FormatError {
    /// The one-line description of the error.
    pub fn message(&self) -> (text: &'static str)
        ensures
            text@ == match self {
                FormatError::Parse { .. } => "Failed to parse input"@,
                FormatError::Unsupported { .. } => "Input contains constructs spadefmt cannot format yet"@,
                FormatError::Print => "Failed to print document"@,
            },
    {
        match self {
            FormatError::Parse { .. } => "Failed to parse input",
            FormatError::Unsupported { .. } => "Input contains constructs spadefmt cannot format yet",
            FormatError::Print => "Failed to print document",
        }
    }
}

/// `s` with every `\r\n` replaced by `\n`. Occurrences of `\r\n` never
/// overlap, so replacing them from the end gives what replacing them from
/// the start does.
pub open spec fn normalized(s: Seq<char>) -> Seq<char>
    decreases s.len(),
{
    if s.len() == 0 {
        s
    } else if s.len() >= 2 && s[s.len() - 2] == '\r' && s[s.len() - 1] == '\n' {
        normalized(s.take(s.len() - 2)).push('\n')
    } else {
        normalized(s.drop_last()).push(s.last())
    }
}

/// `code` with `\r\n` line endings normalized to `\n`, the form every
/// formatting entry point parses and emits.
#[verifier::spinoff_prover]
pub fn normalize_line_endings(code: &str) -> (normal: String)
    ensures
        normal@ == normalized(code@),
{
    let mut out = String::new();
    let mut pending_cr = false;
    let ghost chars = code@;
    let ghost mut k: int = 0;
    for c in it: code.chars()
        invariant
            k == it.index(),
            it.seq() == chars,
            0 <= k <= chars.len(),
            normalized(chars.take(k)) == if pending_cr {
                out@.push('\r')
            } else {
                out@
            },
            pending_cr == (k > 0 && chars[k - 1] == '\r'),
    {
        proof {
            let p = chars.take(k);
            let q = chars.take(k + 1);
            assert(q.drop_last() == p);
            assert(q.last() == c);
            if k >= 1 {
                assert(q[q.len() - 2] == chars[k - 1]);
                assert(q.take(q.len() - 2) == p.drop_last());
                assert(p.last() == chars[k - 1]);
            }
            if pending_cr {
                assert(p.len() >= 1 && p[p.len() - 1] == '\r');
                if p.len() >= 2 && p[p.len() - 2] == '\r' && p[p.len() - 1] == '\n' {
                } else {
                    assert(normalized(p) == normalized(p.drop_last()).push('\r'));
                }
            }
        }
        if pending_cr {
            if c == '\n' {
                out.push('\n');
                pending_cr = false;
            } else {
                out.push('\r');
                if c == '\r' {
                    pending_cr = true;
                } else {
                    out.push(c);
                    pending_cr = false;
                }
            }
        } else if c == '\r' {
            pending_cr = true;
        } else {
            out.push(c);
        }
        proof {
            k = k + 1;
        }
    }
    proof {
        assert(chars.take(k) == chars);
    }
    if pending_cr {
        out.push('\r');
    }
    out
}

/// Text without a carriage return is already normalized.
pub proof fn law_normalize_keeps_text_without_cr(s: Seq<char>)
    requires
        forall|i: int| 0 <= i < s.len() ==> s[i] != '\r',
    ensures
        normalized(s) == s,
    decreases s.len(),
{
    if s.len() > 0 {
        law_normalize_keeps_text_without_cr(s.drop_last());
        assert(s.drop_last().push(s.last()) == s);
    }
}

/// `char::is_whitespace`: the Unicode `White_Space` characters.
pub open spec fn is_whitespace(c: char) -> bool {
    let u = c as u32;
    ||| 0x9 <= u <= 0xD
    ||| u == 0x20
    ||| u == 0x85
    ||| u == 0xA0
    ||| u == 0x1680
    ||| 0x2000 <= u <= 0x200A
    ||| u == 0x2028
    ||| u == 0x2029
    ||| u == 0x202F
    ||| u == 0x205F
    ||| u == 0x3000
}

pub fn whitespace(c: char) -> (r: bool)
    ensures
        r == is_whitespace(c),
{
    let u = c as u32;
    (0x9 <= u && u <= 0xD) || u == 0x20 || u == 0x85 || u == 0xA0 || u == 0x1680 || (0x2000 <= u
        && u <= 0x200A) || u == 0x2028 || u == 0x2029 || u == 0x202F || u == 0x205F || u == 0x3000
}

/// Appends the final newline. A render with no content at all (an empty or
/// whitespace-only input) is the empty string, so an empty file is a fixed
/// point.
pub fn into_clean_text(rendered: String) -> (text: String)
    ensures
        (forall|i: int| 0 <= i < rendered@.len() ==> is_whitespace(#[trigger] rendered@[i]))
            ==> text@ == Seq::<char>::empty(),
        !(forall|i: int| 0 <= i < rendered@.len() ==> is_whitespace(#[trigger] rendered@[i]))
            ==> text@ == rendered@.push('\n'),
{
    let mut blank = true;
    let ghost chars = rendered@;
    let ghost mut k: int = 0;
    for c in it: rendered.as_str().chars()
        invariant
            k == it.index(),
            it.seq() == chars,
            chars == rendered@,
            0 <= k <= chars.len(),
            blank == (forall|i: int| 0 <= i < k ==> is_whitespace(#[trigger] chars[i])),
    {
        if !whitespace(c) {
            blank = false;
        }
        proof {
            assert(chars[k] == c);
            k = k + 1;
        }
    }
    if blank {
        return String::new();
    }
    proof {
        reveal_strlit("\n");
        assert("\n"@ =~= seq!['\n']);
    }
    let text = rendered.concat("\n");
    proof {
        assert(text@ =~= chars.push('\n'));
    }
    text
}


/// `start..end` lies inside `bytes` and on character boundaries.
pub open spec fn span_fits(bytes: Seq<u8>, start: int, end: int) -> bool {
    &&& 0 <= start <= end <= bytes.len()
    &&& vstd::utf8::is_char_boundary(bytes, end)
    &&& vstd::utf8::is_char_boundary(bytes.subrange(0, end), start)
}

/// Every comment span can be cut out of `code`, and `code` is
/// addressable.
pub open spec fn comments_fit(code: Seq<char>, comments: Seq<Comment>) -> bool {
    &&& vstd::utf8::encode_utf8(code).len() < usize::MAX
    &&& forall|i: int|
        0 <= i < comments.len() ==> span_fits(
            vstd::utf8::encode_utf8(code),
            (#[trigger] comments[i]).span_start() as usize as int,
            comments[i].span_end() as usize as int,
        )
}

/// Whether every comment span can be cut out of `code`; the parser hands
/// out only such spans.
pub fn fits(code: &str, comments: &Vec<Comment>) -> (fit: bool)
    ensures
        fit == comments_fit(code@, comments@),
{
    let bytes = code.as_bytes();
    if bytes.len() == usize::MAX {
        return false;
    }
    let mut i: usize = 0;
    while i < comments.len()
        invariant
            i <= comments@.len(),
            code.spec_bytes().len() < usize::MAX,
            forall|k: int|
                0 <= k < i ==> span_fits(
                    code.spec_bytes(),
                    (#[trigger] comments@[k]).span_start() as usize as int,
                    comments@[k].span_end() as usize as int,
                ),
        decreases comments@.len() - i,
    {
        let (start, end, _) = comment_triple(&comments[i]);
        if checked_slice(code, start, end).is_none() {
            return false;
        }
        i = i + 1;
    }
    true
}

/// How severe a parser diagnostic is.
#[derive(Clone, Copy, Debug, PartialEq, Eq, Structural)]
pub enum DiagLevel {
    /// An internal error of the parser.
    Bug,
    Error,
    Warning,
}

/// Whether every level of `levels` is a warning.
pub open spec fn only_warnings(levels: Seq<DiagLevel>) -> bool {
    forall|i: int| 0 <= i < levels.len() ==> #[trigger] levels[i] == DiagLevel::Warning
}

/// Whether the parser reported nothing worse than warnings.
pub fn warnings_only(levels: &Vec<DiagLevel>) -> (only: bool)
    ensures
        only == only_warnings(levels@),
{
    let mut i: usize = 0;
    while i < levels.len()
        invariant
            i <= levels@.len(),
            forall|k: int| 0 <= k < i ==> #[trigger] levels@[k] == DiagLevel::Warning,
        decreases levels@.len() - i,
    {
        if levels[i] != DiagLevel::Warning {
            return false;
        }
        i = i + 1;
    }
    true
}

/// A writer with nothing written yet.
pub open spec fn fresh_writer() -> WriterState {
    WriterState { out: Seq::empty(), indent: 0, at_line_start: true, pending: Seq::empty() }
}

/// What [`into_clean_text`] makes of `rendered`: nothing when it holds
/// only whitespace, else it with a final line feed.
pub open spec fn clean_text(rendered: Seq<char>) -> Seq<char> {
    if forall|i: int| 0 <= i < rendered.len() ==> is_whitespace(#[trigger] rendered[i]) {
        Seq::empty()
    } else {
        rendered.push('\n')
    }
}

/// `text` is what printing the document at `root` of `docs` gives, laid
/// out within `width` from the start of a line: each choice takes its
/// try branch exactly when that fits, and the output is cleaned.
pub open spec fn renders(docs: Seq<DocumentView>, root: int, width: int, text: Seq<char>) -> bool {
    exists|resolved: Seq<DocumentView>, r: int|
        #[trigger] fits_resolution(
            docs,
            root,
            0,
            false,
            Cursor { column: 0, last_was_newline: true },
            width,
            resolved,
            r,
        ) && extends(resolved, docs) && printable(resolved, r, 0) && text == clean_text(
            print_doc(resolved, fresh_writer(), r, false, false).0.out,
        )
}

/// `text` is the rendering, within `width`, of some document.
pub open spec fn rendering_of_some_document(width: int, text: Seq<char>) -> bool {
    exists|docs: Seq<DocumentView>, root: int| #[trigger] renders(docs, root, width, text)
}

/// The text of the document at `root`, laid out within `max_width`.
pub fn render(store: &mut InternedDocumentStore, root: DocumentIdx, max_width: usize) -> (text: String)
    requires
        old(store).wf(),
        old(store).valid(root),
    ensures
        final(store).wf(),
        extends(final(store)@, old(store)@),
        renders(old(store)@, root.0 as int, max_width as int, text@),
        text@.len() == 0 || text@.last() == '\n',
        old(store)@[root.0 as int] == DocumentView::List(Seq::empty()) ==> text@.len() == 0,
        no_verbatim(final(store)@) ==> (forall|i: int|
            0 < i < text@.len() && text@[i] == '\n' ==> !is_blank(#[trigger] text@[i - 1])),
{
    let context = PrintingContext::new(max_width);
    let resolved = resolve_try_catch(store, root, &context);
    let mut writer = Writer::new(String::new());
    let mut last_was_newline = false;
    let ghost empty_writer = writer@;
    print_resolved(store, &mut writer, resolved, false, &mut last_was_newline);
    let ghost printed = writer@;
    proof {
        assert(empty_writer == fresh_writer());
        assert(printed == print_doc(store@, fresh_writer(), resolved.0 as int, false, false).0);
        if old(store)@[root.0 as int] == DocumentView::List(Seq::empty()) {
            assert(store@[resolved.0 as int] matches DocumentView::List(rs) && rs.len() == 0);
            let rs = store@[resolved.0 as int]->List_0;
            assert(crate::document::print_children(store@, empty_writer, resolved.0 as int, rs, 0, false)
                == (empty_writer, false));
            assert(printed == empty_writer);
        }
        if no_verbatim(store@) {
            crate::document::law_printing_leaves_no_trailing_whitespace(
                store@,
                fresh_writer(),
                resolved.0 as int,
                false,
                false,
            );
        }
    }
    let rendered = writer.into_output();
    let text = into_clean_text(rendered);
    proof {
        assert(text@ == clean_text(rendered@));
        if text@.len() > 0 {
            assert(text@.last() == '\n');
        }
        if no_verbatim(store@) && text@.len() > 0 {
            assert forall|i: int| 0 < i < text@.len() && text@[i] == '\n' implies !is_blank(
                #[trigger] text@[i - 1],
            ) by {
                if i < rendered@.len() {
                    assert(text@[i] == rendered@[i]);
                    assert(text@[i - 1] == rendered@[i - 1]);
                } else {
                    assert(text@[i - 1] == rendered@.last());
                }
            }
        }
    }
    text
}

/// `text` is the debugging rendering of the document at `root` of
/// `docs`: each node on lines of its own, its children indented below it.
pub open spec fn debug_renders(docs: Seq<DocumentView>, root: int, text: Seq<char>) -> bool {
    text == clean_text(debug_doc(docs, fresh_writer(), root).out)
}

/// `text` is the debugging rendering of some document.
pub open spec fn debug_rendering_of_some_document(text: Seq<char>) -> bool {
    exists|docs: Seq<DocumentView>, root: int| #[trigger] debug_renders(docs, root, text)
}

/// A successfully parsed source file, ready for formatting.
///
/// Parsing is split from formatting so callers can flush `diagnostics`
/// before [`Parsed::format`], which reports its own diagnostics on
/// constructs the document builder does not support yet.
pub struct Parsed {
    code: String,
    root: Loc<ModuleBody>,
    comments: Vec<Comment>,
    /// Rendered non-fatal parser diagnostics, empty if there were none.
    pub diagnostics: String,
}

impl Parsed {
    /// The parsed file's invariant: its comments lie on character
    /// boundaries of its code.
    pub closed spec fn wf(&self) -> bool {
        comments_fit(self.code@, self.comments@)
    }

    /// The tree holds nothing the builder reports as unsupported.
    pub closed spec fn formattable(&self) -> bool {
        module_body_ok(vstd::utf8::encode_utf8(self.code@), self.root)
    }

    /// The rendered parser diagnostics.
    pub closed spec fn diagnostics_view(&self) -> Seq<char> {
        self.diagnostics@
    }

    /// The file holds no item, no module documentation and no comment.
    pub open spec fn empty_module(&self) -> bool {
        &&& self.root_view().inner.members@.len() == 0
        &&& self.root_view().inner.documentation@.len() == 0
        &&& self.comments_view().len() == 0
    }

    /// The parsed code, line endings normalized.
    pub closed spec fn code_view(&self) -> Seq<char> {
        self.code@
    }

    /// The parsed module body.
    pub closed spec fn root_view(&self) -> Loc<ModuleBody> {
        self.root
    }

    /// The comments the parser found.
    pub closed spec fn comments_view(&self) -> Seq<Comment> {
        self.comments@
    }

    /// A parsed file: its normalized code, module body, and comments.
    pub fn new(code: String, root: Loc<ModuleBody>, comments: Vec<Comment>, diagnostics: String) -> (parsed:
        Self)
        requires
            comments_fit(code@, comments@),
        ensures
            parsed.wf(),
            parsed.diagnostics_view() == diagnostics@,
            parsed.code_view() == code@,
            parsed.root_view() == root,
            parsed.comments_view() == comments@,
    {
        Parsed { code, root, comments, diagnostics }
    }

    /// What the parser's result on `code` gives: the file, when it returned
    /// a module body, reported nothing but warnings (`levels` are the
    /// levels of what it reported) and every comment it found lies in the
    /// code; otherwise a parse error carrying `diagnostics`. A parser that
    /// recovers from an error drops the offending items, and formatting
    /// what is left would delete code.
    pub fn accept(
        code: String,
        root: Option<Loc<ModuleBody>>,
        levels: &Vec<DiagLevel>,
        comments: Vec<Comment>,
        diagnostics: String,
    ) -> (result: Result<Parsed, FormatError>)
        ensures
            (root is Some && only_warnings(levels@) && comments_fit(code@, comments@)) ==> (result matches Ok(
                parsed,
            ) && parsed.wf() && parsed.code_view() == code@ && parsed.root_view() == root->0
                && parsed.comments_view() == comments@ && parsed.diagnostics_view() == diagnostics@),
            !(root is Some && only_warnings(levels@) && comments_fit(code@, comments@)) ==> (result matches Err(
                FormatError::Parse { diagnostics: d },
            ) && d@ == diagnostics@),
    {
        match root {
            Some(root) => {
                if !warnings_only(levels) || !fits(code.as_str(), &comments) {
                    return Err(FormatError::Parse { diagnostics });
                }
                Ok(Parsed::new(code, root, comments, diagnostics))
            },
            None => Err(FormatError::Parse { diagnostics }),
        }
    }

    /// The document of the file, the diagnostics of what it could not
    /// build, and the number of misplaced comments.
    fn build(&self, config: &Config) -> (built: (InternedDocumentStore, DocumentIdx, Vec<BuildDiagnostic>, usize))
        requires
            self.wf(),
        ensures
            built.0.wf(),
            built.0.valid(built.1),
            self.formattable() <==> reported_count(built.2@) == 0,
            reported_count(built.2@) >= 0,
            spans_outside(vstd::utf8::encode_utf8(self.code@), built.2@),
            self.empty_module() ==> built.0@[built.1.0 as int] == DocumentView::List(Seq::empty())
                && built.2@.len() == 0,
    {
        let source = self.code.as_str();
        proof {
            assert forall|i: int| 0 <= i < self.comments@.len() implies crate::comment_insertion::triple_ok(
                source,
                triple(#[trigger] self.comments@[i]),
            ) by {
                assert(span_fits(
                    vstd::utf8::encode_utf8(self.code@),
                    self.comments@[i].span_start() as usize as int,
                    self.comments@[i].span_end() as usize as int,
                ));
            }
        }
        let mut comments = CommentMap::new(self.comments.as_slice(), source);
        let builder = DocumentBuilder::new(config.indent.inner as isize);
        let (store, root, diagnostics) = builder.build_root(&self.root, source, &mut comments);
        let misplaced = comments.misplaced();
        (store, root, diagnostics, misplaced)
    }

    /// Renders the formatted source according to `config`, or the
    /// constructs the builder cannot format.
    pub fn format(&self, config: &Config) -> (result: Result<Formatted, FormatError>)
        requires
            self.wf(),
        ensures
            result matches Ok(formatted) ==> formatted.diagnostics@ == self.diagnostics_view() && (
            formatted.text@.len() == 0 || formatted.text@.last() == '\n'),
            result matches Err(error) ==> error matches FormatError::Unsupported { diagnostics } && diagnostics@.len() > 0,
            !self.formattable() ==> (result matches Err(FormatError::Unsupported { diagnostics })
                && reported_count(diagnostics@) > 0),
            self.formattable() ==> (result matches Err(FormatError::Unsupported { diagnostics })
                ==> reported_count(diagnostics@) == 0),
            result matches Err(FormatError::Unsupported { diagnostics }) ==> spans_outside(
                vstd::utf8::encode_utf8(self.code_view()),
                diagnostics@,
            ),
            self.empty_module() ==> (result matches Ok(formatted) && formatted.text@.len() == 0),
            result matches Ok(formatted) ==> rendering_of_some_document(
                config.max_width.inner as int,
                formatted.text@,
            ),
            result is Ok ==> self.formattable(),
    {
        let (mut store, root, unsupported, unclaimed_comments) = self.build(config);
        if unsupported.len() > 0 {
            return Err(FormatError::Unsupported { diagnostics: unsupported });
        }
        let ghost store_before_render = store;
        let text = render(&mut store, root, config.max_width.inner);
        proof {
            assert(renders(store_before_render@, root.0 as int, config.max_width.inner as int, text@));
        }
        let ghost text_view = text@;
        let formatted = Formatted { text, diagnostics: self.diagnostics.clone(), unclaimed_comments };
        proof {
            assert(formatted.text@ == text_view);
            assert(renders(store_before_render@, root.0 as int, config.max_width.inner as int, formatted.text@));
            assert(rendering_of_some_document(config.max_width.inner as int, formatted.text@));
        }
        Ok(formatted)
    }

    /// Renders the unresolved document tree for debugging.
    pub fn debug_document(&self, config: &Config) -> (result: Result<String, FormatError>)
        requires
            self.wf(),
        ensures
            result matches Err(error) ==> (error matches FormatError::Unsupported { diagnostics }
                && diagnostics@.len() > 0) || error is Print,
            !self.formattable() ==> (result matches Err(FormatError::Unsupported { diagnostics })
                && reported_count(diagnostics@) > 0),
            self.formattable() ==> (result matches Err(FormatError::Unsupported { diagnostics })
                ==> reported_count(diagnostics@) == 0),
            result matches Err(FormatError::Unsupported { diagnostics }) ==> spans_outside(
                vstd::utf8::encode_utf8(self.code_view()),
                diagnostics@,
            ),
            result matches Ok(text) ==> debug_rendering_of_some_document(text@),
            result is Ok ==> self.formattable(),
            result matches Err(FormatError::Print) ==> self.formattable(),
    {
        let (store, root, unsupported, _) = self.build(config);
        if unsupported.len() > 0 {
            return Err(FormatError::Unsupported { diagnostics: unsupported });
        }
        // Each level of the tree indents its children once more, and a tree
        // may be as deep as the store is long: the indentation of a store
        // longer than this may not fit an `isize`.
        if store.len() >= (isize::MAX as usize) / (crate::document::DEBUG_INDENT as usize) {
            return Err(FormatError::Print);
        }
        proof {
            crate::document::lemma_debug_printable(store@, root.0 as int, 0);
        }
        let mut writer = Writer::new(String::new());
        debug_print(&store, &mut writer, root);
        let text = into_clean_text(writer.into_output());
        proof {
            assert(debug_renders(store@, root.0 as int, text@));
        }
        Ok(text)
    }
}

} // verus!
