use vstd::prelude::*;

use crate::document::{
    children_below, printable, Document, DocumentIdx, DocumentView, InternedDocumentStore,
};

verus! {

/// The layout settings the resolver works to.
pub struct PrintingContext {
    /// The widest a line may get before a group breaks.
    pub max_width: usize,
}

impl PrintingContext {
    pub fn new(max_width: usize) -> (context: Self)
        ensures
            context.max_width == max_width,
    {
        PrintingContext { max_width }
    }
}

/// Where printing stands while the resolver lays a document out.
#[derive(Clone, Copy)]
pub struct Cursor {
    /// The output column, in characters.
    pub column: usize,
    /// Whether the last thing laid out was a line break.
    pub last_was_newline: bool,
}

/// `a + b`, or `usize::MAX` when that overflows.
fn saturating_add(a: usize, b: usize) -> (sum: usize)
    ensures
        sum == if a + b <= usize::MAX {
            (a + b) as usize
        } else {
            usize::MAX
        },
{
    if a > usize::MAX - b {
        usize::MAX
    } else {
        a + b
    }
}

/// The number of characters of `s` after its last line feed (all of them
/// when it has none).
pub open spec fn last_line_len(s: Seq<char>) -> int
    decreases s.len(),
{
    if s.len() == 0 {
        0
    } else if s.last() == '\n' {
        0
    } else {
        last_line_len(s.drop_last()) + 1
    }
}

/// The number of characters of `s` after its last line feed (all of them
/// when it has none, and `usize::MAX` when there are more), and whether it
/// holds one.
fn last_line(s: &str) -> (result: (usize, bool))
    ensures
        result.0 == if last_line_len(s@) <= usize::MAX {
            last_line_len(s@)
        } else {
            usize::MAX as int
        },
        result.1 == s@.contains('\n'),
{
    let mut count: usize = 0;
    let mut seen = false;
    let ghost chars = s@;
    let ghost mut k: int = 0;
    for c in it: s.chars()
        invariant
            k == it.index(),
            it.seq() == chars,
            chars == s@,
            0 <= k <= chars.len(),
            count == if last_line_len(chars.take(k)) <= usize::MAX {
                last_line_len(chars.take(k))
            } else {
                usize::MAX as int
            },
            seen == chars.take(k).contains('\n'),
    {
        proof {
            assert(chars[k] == c);
            assert(chars.take(k + 1).drop_last() =~= chars.take(k));
            assert(chars.take(k + 1).last() == c);
            if chars.take(k).contains('\n') {
                let t = chars.take(k);
                let w = choose|w: int| 0 <= w < t.len() && t[w] == '\n';
                assert(chars.take(k + 1)[w] == '\n');
            }
            if chars.take(k + 1).contains('\n') && c != '\n' {
                let t = chars.take(k + 1);
                let w = choose|w: int| 0 <= w < t.len() && t[w] == '\n';
                assert(w < k);
                assert(chars.take(k)[w] == '\n');
            }
            if c == '\n' {
                assert(chars.take(k + 1)[k] == '\n');
            }
        }
        if c == '\n' {
            count = 0;
            seen = true;
        } else {
            count = saturating_add(count, 1);
        }
        proof {
            k = k + 1;
        }
    }
    proof {
        assert(chars.take(k) =~= chars);
    }
    (count, seen)
}

/// A printable document stays printable as the store grows.
pub proof fn lemma_printable_grows(
    before: Seq<DocumentView>,
    after: Seq<DocumentView>,
    idx: int,
    indent: int,
)
    requires
        printable(before, idx, indent),
        before.len() <= after.len(),
        forall|i: int| 0 <= i < before.len() ==> #[trigger] after[i] == before[i],
    ensures
        printable(after, idx, indent),
    decreases idx,
{
    match before[idx] {
        DocumentView::Nest(body, by) => {
            lemma_printable_grows(before, after, body.0 as int, indent + by);
        },
        DocumentView::Flatten(body) => {
            lemma_printable_grows(before, after, body.0 as int, indent);
        },
        DocumentView::List(children) => {
            assert forall|i: int| 0 <= i < children.len() implies (#[trigger] children[i]).0 < idx
                && printable(after, children[i].0 as int, indent) by {
                lemma_printable_grows(before, after, children[i].0 as int, indent);
            }
        },
        _ => {},
    }
}

/// `after` holds what `before` held, and maybe more.
pub open spec fn extends(after: Seq<DocumentView>, before: Seq<DocumentView>) -> bool {
    &&& before.len() <= after.len()
    &&& forall|i: int| 0 <= i < before.len() ==> #[trigger] after[i] == before[i]
}

/// The document at `j` of `resolved` is a layout that the document at `i`
/// of `original` allows when printed at depth `indent`: each `TryCatch`
/// gives way to one of its two branches, a nesting whose depth would leave
/// the range of `isize` is dropped, and every other node is kept with its
/// children resolved in the same way.
pub open spec fn resolves_to(
    original: Seq<DocumentView>,
    i: int,
    indent: int,
    resolved: Seq<DocumentView>,
    j: int,
) -> bool
    decreases i,
{
    &&& 0 <= i < original.len()
    &&& 0 <= j < resolved.len()
    &&& match original[i] {
        DocumentView::TryCatch(try_body, catch_body) => {
            ||| try_body.0 < i && resolves_to(original, try_body.0 as int, indent, resolved, j)
            ||| catch_body.0 < i && resolves_to(original, catch_body.0 as int, indent, resolved, j)
        },
        DocumentView::Nest(body, by) => {
            &&& body.0 < i
            &&& if 0 <= indent + by <= isize::MAX {
                resolved[j] matches DocumentView::Nest(r, b) && b == by && resolves_to(
                    original,
                    body.0 as int,
                    indent + by,
                    resolved,
                    r.0 as int,
                )
            } else {
                resolves_to(original, body.0 as int, indent, resolved, j)
            }
        },
        DocumentView::Flatten(body) => {
            &&& body.0 < i
            &&& resolved[j] matches DocumentView::Flatten(r) && resolves_to(
                original,
                body.0 as int,
                indent,
                resolved,
                r.0 as int,
            )
        },
        DocumentView::List(children) => {
            resolved[j] matches DocumentView::List(rs) && rs.len() == children.len() && forall|k: int|
                0 <= k < children.len() ==> (#[trigger] children[k]).0 < i && resolves_to(
                    original,
                    children[k].0 as int,
                    indent,
                    resolved,
                    rs[k].0 as int,
                )
        },
        leaf => resolved[j] == leaf,
    }
}

/// A resolution stays one as the resolved store grows.
pub proof fn lemma_resolves_to_grows(
    original: Seq<DocumentView>,
    i: int,
    indent: int,
    before: Seq<DocumentView>,
    after: Seq<DocumentView>,
    j: int,
)
    requires
        resolves_to(original, i, indent, before, j),
        extends(after, before),
    ensures
        resolves_to(original, i, indent, after, j),
    decreases i,
{
    match original[i] {
        DocumentView::TryCatch(try_body, catch_body) => {
            if try_body.0 < i && resolves_to(original, try_body.0 as int, indent, before, j) {
                lemma_resolves_to_grows(original, try_body.0 as int, indent, before, after, j);
            } else {
                lemma_resolves_to_grows(original, catch_body.0 as int, indent, before, after, j);
            }
        },
        DocumentView::Nest(body, by) => {
            if 0 <= indent + by <= isize::MAX {
                let r = before[j]->Nest_0;
                lemma_resolves_to_grows(original, body.0 as int, indent + by, before, after, r.0 as int);
            } else {
                lemma_resolves_to_grows(original, body.0 as int, indent, before, after, j);
            }
        },
        DocumentView::Flatten(body) => {
            let r = before[j]->Flatten_0;
            lemma_resolves_to_grows(original, body.0 as int, indent, before, after, r.0 as int);
        },
        DocumentView::List(children) => {
            let rs = before[j]->List_0;
            assert forall|k: int| 0 <= k < children.len() implies (#[trigger] children[k]).0 < i
                && resolves_to(original, children[k].0 as int, indent, after, rs[k].0 as int) by {
                lemma_resolves_to_grows(original, children[k].0 as int, indent, before, after, rs[k].0 as int);
            }
        },
        _ => {},
    }
}

/// A resolution of a document reads only that document and those below
/// it, so it is the same against any store that extends the original.
pub proof fn lemma_resolves_from_grown(
    original: Seq<DocumentView>,
    grown: Seq<DocumentView>,
    i: int,
    indent: int,
    resolved: Seq<DocumentView>,
    j: int,
)
    requires
        extends(grown, original),
        0 <= i < original.len(),
    ensures
        resolves_to(grown, i, indent, resolved, j) == resolves_to(original, i, indent, resolved, j),
    decreases i,
{
    assert(grown[i] == original[i]);
    match original[i] {
        DocumentView::TryCatch(try_body, catch_body) => {
            if try_body.0 < i {
                lemma_resolves_from_grown(original, grown, try_body.0 as int, indent, resolved, j);
            }
            if catch_body.0 < i {
                lemma_resolves_from_grown(original, grown, catch_body.0 as int, indent, resolved, j);
            }
        },
        DocumentView::Nest(body, by) => {
            if body.0 < i {
                if 0 <= j < resolved.len() {
                    if resolved[j] is Nest {
                        let r = resolved[j]->Nest_0;
                        lemma_resolves_from_grown(original, grown, body.0 as int, indent + by, resolved, r.0 as int);
                    }
                }
                lemma_resolves_from_grown(original, grown, body.0 as int, indent, resolved, j);
            }
        },
        DocumentView::Flatten(body) => {
            if body.0 < i && 0 <= j < resolved.len() && resolved[j] is Flatten {
                let r = resolved[j]->Flatten_0;
                lemma_resolves_from_grown(original, grown, body.0 as int, indent, resolved, r.0 as int);
            }
        },
        DocumentView::List(children) => {
            if 0 <= j < resolved.len() && resolved[j] is List {
                let rs = resolved[j]->List_0;
                if rs.len() == children.len() {
                    assert forall|k: int| 0 <= k < children.len() && (#[trigger] children[k]).0 < i implies
                        resolves_to(grown, children[k].0 as int, indent, resolved, rs[k].0 as int)
                        == resolves_to(original, children[k].0 as int, indent, resolved, rs[k].0 as int) by {
                        lemma_resolves_from_grown(original, grown, children[k].0 as int, indent, resolved, rs[k].0 as int);
                    }
                }
            }
        },
        _ => {},
    }
}

/// The children of a list whose children lie below `bound`, one by one.
proof fn lemma_list_children_below(children: Seq<DocumentIdx>, bound: int)
    requires
        children_below(DocumentView::List(children), bound),
    ensures
        forall|k: int| 0 <= k < children.len() ==> (#[trigger] children[k]).0 < bound,
{
    let list = DocumentView::List(children);
    assert forall|k: int| 0 <= k < children.len() implies (#[trigger] children[k]).0 < bound by {
        assert(list->List_0[k] == children[k]);
    }
}

/// `n`, or `usize::MAX` when it is larger.
pub open spec fn saturated(n: int) -> int {
    if n <= usize::MAX {
        n
    } else {
        usize::MAX as int
    }
}

/// Where laying out the document at `i` of `docs` at depth `indent` from
/// `cursor` leaves the cursor, and whether every column it reached stayed
/// within `width`. Line breaks print as single spaces under `flattened`
/// (none right after another); a `TryCatch` lays out its try branch when
/// that stays within the width, else its catch branch.
pub open spec fn lay_out(
    docs: Seq<DocumentView>,
    i: int,
    indent: int,
    flattened: bool,
    cursor: Cursor,
    width: int,
) -> (Cursor, bool)
    decreases i, 1int, 0int,
{
    if !(0 <= i < docs.len()) {
        (cursor, true)
    } else {
        match docs[i] {
            DocumentView::Newline => {
                let column = if flattened {
                    if cursor.last_was_newline {
                        cursor.column as int
                    } else {
                        saturated(cursor.column + 1)
                    }
                } else {
                    indent
                };
                (Cursor { column: column as usize, last_was_newline: true }, column <= width)
            },
            DocumentView::Text(text) => {
                let column = saturated(cursor.column + text.len());
                (Cursor { column: column as usize, last_was_newline: false }, column <= width)
            },
            DocumentView::Raw(text) => {
                let len = saturated(last_line_len(text));
                let column = if text.contains('\n') {
                    saturated(indent + len)
                } else {
                    saturated(cursor.column + len)
                };
                (Cursor { column: column as usize, last_was_newline: false }, column <= width)
            },
            DocumentView::Verbatim(text) => {
                let len = saturated(last_line_len(text));
                let column = if text.contains('\n') {
                    len
                } else {
                    saturated(cursor.column + len)
                };
                (Cursor { column: column as usize, last_was_newline: false }, column <= width)
            },
            DocumentView::Nest(body, by) => if body.0 < i {
                if 0 <= indent + by <= isize::MAX {
                    lay_out(docs, body.0 as int, indent + by, flattened, cursor, width)
                } else {
                    lay_out(docs, body.0 as int, indent, flattened, cursor, width)
                }
            } else {
                (cursor, true)
            },
            DocumentView::Flatten(body) => if body.0 < i {
                lay_out(docs, body.0 as int, indent, true, cursor, width)
            } else {
                (cursor, true)
            },
            DocumentView::TryCatch(try_body, catch_body) => if try_body.0 < i && catch_body.0 < i {
                let tried = lay_out(docs, try_body.0 as int, indent, flattened, cursor, width);
                if tried.1 {
                    tried
                } else {
                    lay_out(docs, catch_body.0 as int, indent, flattened, cursor, width)
                }
            } else {
                (cursor, true)
            },
            DocumentView::List(children) => lay_out_list(
                docs,
                i,
                children,
                children.len() as int,
                indent,
                flattened,
                cursor,
                width,
            ),
        }
    }
}

/// [`lay_out`] of the first `n` children of the list at `i`, one after
/// another.
pub open spec fn lay_out_list(
    docs: Seq<DocumentView>,
    i: int,
    children: Seq<DocumentIdx>,
    n: int,
    indent: int,
    flattened: bool,
    cursor: Cursor,
    width: int,
) -> (Cursor, bool)
    decreases i, 0int, n,
{
    if n <= 0 || n > children.len() {
        (cursor, true)
    } else {
        let before = lay_out_list(docs, i, children, n - 1, indent, flattened, cursor, width);
        if children[n - 1].0 < i {
            let after = lay_out(docs, children[n - 1].0 as int, indent, flattened, before.0, width);
            (after.0, before.1 && after.1)
        } else {
            before
        }
    }
}

/// The document at `j` of `resolved` is the layout the resolver picks for
/// the document at `i` of `original` printed at depth `indent` from
/// `cursor` within `width`: each `TryCatch` gives way to its try branch
/// exactly when that lays out within the width from where it starts, else
/// to its catch branch; a nesting whose depth would leave the range of
/// `isize` is dropped; everything else is kept.
pub open spec fn fits_resolution(
    original: Seq<DocumentView>,
    i: int,
    indent: int,
    flattened: bool,
    cursor: Cursor,
    width: int,
    resolved: Seq<DocumentView>,
    j: int,
) -> bool
    decreases i, 1int, 0int,
{
    &&& 0 <= i < original.len()
    &&& 0 <= j < resolved.len()
    &&& match original[i] {
        DocumentView::TryCatch(try_body, catch_body) => {
            &&& try_body.0 < i
            &&& catch_body.0 < i
            &&& if lay_out(original, try_body.0 as int, indent, flattened, cursor, width).1 {
                fits_resolution(original, try_body.0 as int, indent, flattened, cursor, width, resolved, j)
            } else {
                fits_resolution(original, catch_body.0 as int, indent, flattened, cursor, width, resolved, j)
            }
        },
        DocumentView::Nest(body, by) => {
            &&& body.0 < i
            &&& if 0 <= indent + by <= isize::MAX {
                resolved[j] matches DocumentView::Nest(r, b) && b == by && fits_resolution(
                    original,
                    body.0 as int,
                    indent + by,
                    flattened,
                    cursor,
                    width,
                    resolved,
                    r.0 as int,
                )
            } else {
                fits_resolution(original, body.0 as int, indent, flattened, cursor, width, resolved, j)
            }
        },
        DocumentView::Flatten(body) => {
            &&& body.0 < i
            &&& resolved[j] matches DocumentView::Flatten(r) && fits_resolution(
                original,
                body.0 as int,
                indent,
                true,
                cursor,
                width,
                resolved,
                r.0 as int,
            )
        },
        DocumentView::List(children) => resolved[j] matches DocumentView::List(rs) && rs.len()
            == children.len() && fits_list(
            original,
            i,
            children,
            children.len() as int,
            indent,
            flattened,
            cursor,
            width,
            resolved,
            rs,
        ),
        leaf => resolved[j] == leaf,
    }
}

/// [`fits_resolution`] for the first `n` children of the list at `i`,
/// each from where the ones before it leave the cursor.
pub open spec fn fits_list(
    original: Seq<DocumentView>,
    i: int,
    children: Seq<DocumentIdx>,
    n: int,
    indent: int,
    flattened: bool,
    cursor: Cursor,
    width: int,
    resolved: Seq<DocumentView>,
    rs: Seq<DocumentIdx>,
) -> bool
    decreases i, 0int, n,
{
    if n <= 0 {
        true
    } else {
        &&& n <= children.len()
        &&& n <= rs.len()
        &&& fits_list(original, i, children, n - 1, indent, flattened, cursor, width, resolved, rs)
        &&& children[n - 1].0 < i
        &&& fits_resolution(
            original,
            children[n - 1].0 as int,
            indent,
            flattened,
            lay_out_list(original, i, children, n - 1, indent, flattened, cursor, width).0,
            width,
            resolved,
            rs[n - 1].0 as int,
        )
    }
}

/// A picked layout stays one as the resolved store grows.
pub proof fn lemma_fits_resolution_grows(
    original: Seq<DocumentView>,
    i: int,
    indent: int,
    flattened: bool,
    cursor: Cursor,
    width: int,
    before: Seq<DocumentView>,
    after: Seq<DocumentView>,
    j: int,
)
    requires
        fits_resolution(original, i, indent, flattened, cursor, width, before, j),
        extends(after, before),
    ensures
        fits_resolution(original, i, indent, flattened, cursor, width, after, j),
    decreases i, 1int, 0int,
{
    match original[i] {
        DocumentView::TryCatch(try_body, catch_body) => {
            if lay_out(original, try_body.0 as int, indent, flattened, cursor, width).1 {
                lemma_fits_resolution_grows(original, try_body.0 as int, indent, flattened, cursor, width, before, after, j);
            } else {
                lemma_fits_resolution_grows(original, catch_body.0 as int, indent, flattened, cursor, width, before, after, j);
            }
        },
        DocumentView::Nest(body, by) => {
            if 0 <= indent + by <= isize::MAX {
                let r = before[j]->Nest_0;
                lemma_fits_resolution_grows(original, body.0 as int, indent + by, flattened, cursor, width, before, after, r.0 as int);
            } else {
                lemma_fits_resolution_grows(original, body.0 as int, indent, flattened, cursor, width, before, after, j);
            }
        },
        DocumentView::Flatten(body) => {
            let r = before[j]->Flatten_0;
            lemma_fits_resolution_grows(original, body.0 as int, indent, true, cursor, width, before, after, r.0 as int);
        },
        DocumentView::List(children) => {
            let rs = before[j]->List_0;
            lemma_fits_list_grows(original, i, children, children.len() as int, indent, flattened, cursor, width, before, after, rs);
        },
        _ => {},
    }
}

/// [`lemma_fits_resolution_grows`] for the children of a list.
pub proof fn lemma_fits_list_grows(
    original: Seq<DocumentView>,
    i: int,
    children: Seq<DocumentIdx>,
    n: int,
    indent: int,
    flattened: bool,
    cursor: Cursor,
    width: int,
    before: Seq<DocumentView>,
    after: Seq<DocumentView>,
    rs: Seq<DocumentIdx>,
)
    requires
        fits_list(original, i, children, n, indent, flattened, cursor, width, before, rs),
        extends(after, before),
    ensures
        fits_list(original, i, children, n, indent, flattened, cursor, width, after, rs),
    decreases i, 0int, n,
{
    if n > 0 {
        lemma_fits_list_grows(original, i, children, n - 1, indent, flattened, cursor, width, before, after, rs);
        lemma_fits_resolution_grows(
            original,
            children[n - 1].0 as int,
            indent,
            flattened,
            lay_out_list(original, i, children, n - 1, indent, flattened, cursor, width).0,
            width,
            before,
            after,
            rs[n - 1].0 as int,
        );
    }
}

/// Lays out the document at `idx` from `cursor` at depth `indent`
/// (`flattened` prints line breaks as spaces) and returns a copy without
/// `TryCatch` nodes: each keeps its try branch when that lays out within
/// the context's width, else its catch branch. The flag tells whether
/// everything laid out within the width. `original` is the store the
/// document was built in.
fn resolve_at(
    store: &mut InternedDocumentStore,
    idx: DocumentIdx,
    indent: isize,
    flattened: bool,
    cursor: &mut Cursor,
    context: &PrintingContext,
    Ghost(original): Ghost<Seq<DocumentView>>,
) -> (result: (DocumentIdx, bool))
    requires
        old(store).wf(),
        extends(old(store)@, original),
        idx.0 < original.len(),
        0 <= indent,
    ensures
        final(store).wf(),
        extends(final(store)@, old(store)@),
        printable(final(store)@, result.0.0 as int, indent as int),
        resolves_to(original, idx.0 as int, indent as int, final(store)@, result.0.0 as int),
        fits_resolution(
            original,
            idx.0 as int,
            indent as int,
            flattened,
            *old(cursor),
            context.max_width as int,
            final(store)@,
            result.0.0 as int,
        ),
        (*final(cursor), result.1) == lay_out(
            original,
            idx.0 as int,
            indent as int,
            flattened,
            *old(cursor),
            context.max_width as int,
        ),
    decreases idx.0,
{
    proof {
        assert(children_below(store@[idx.0 as int], idx.0 as int));
        assert(store@[idx.0 as int] == original[idx.0 as int]);
    }
    let width = context.max_width;
    match store.get(idx) {
        Document::Newline => {
            if flattened {
                if !cursor.last_was_newline {
                    cursor.column = saturating_add(cursor.column, 1);
                }
            } else {
                cursor.column = indent as usize;
            }
            cursor.last_was_newline = true;
            (idx, cursor.column <= width)
        },
        Document::Text(text) => {
            let len = text.as_str().unicode_len();
            cursor.column = saturating_add(cursor.column, len);
            cursor.last_was_newline = false;
            (idx, cursor.column <= width)
        },
        Document::Raw(text) => {
            let (len, broken) = last_line(text.as_str());
            cursor.column = if broken {
                saturating_add(indent as usize, len)
            } else {
                saturating_add(cursor.column, len)
            };
            cursor.last_was_newline = false;
            (idx, cursor.column <= width)
        },
        Document::Verbatim(text) => {
            let (len, broken) = last_line(text.as_str());
            cursor.column = if broken {
                len
            } else {
                saturating_add(cursor.column, len)
            };
            cursor.last_was_newline = false;
            (idx, cursor.column <= width)
        },
        Document::Nest(body, by) => {
            let body = *body;
            let by = *by;
            if by >= 0 && indent <= isize::MAX - by || by < 0 && indent + by >= 0 {
                let nested_indent = indent + by;
                let (resolved, fits) = resolve_at(store, body, nested_indent, flattened, cursor, context, Ghost(original));
                let ghost mid = store@;
                let new_idx = store.add(Document::Nest(resolved, by));
                proof {
                    lemma_printable_grows(mid, store@, resolved.0 as int, nested_indent as int);
                    lemma_resolves_to_grows(original, body.0 as int, nested_indent as int, mid, store@, resolved.0 as int);
                    lemma_fits_resolution_grows(
                        original,
                        body.0 as int,
                        nested_indent as int,
                        flattened,
                        *old(cursor),
                        width as int,
                        mid,
                        store@,
                        resolved.0 as int,
                    );
                    assert(children_below(store@[new_idx.0 as int], new_idx.0 as int));
                }
                (new_idx, fits)
            } else {
                // A nesting that would take the depth out of range is
                // dropped; the builder never makes one.
                resolve_at(store, body, indent, flattened, cursor, context, Ghost(original))
            }
        },
        Document::Flatten(body) => {
            let body = *body;
            let (resolved, fits) = resolve_at(store, body, indent, true, cursor, context, Ghost(original));
            let ghost mid = store@;
            let new_idx = store.add(Document::Flatten(resolved));
            proof {
                lemma_printable_grows(mid, store@, resolved.0 as int, indent as int);
                lemma_resolves_to_grows(original, body.0 as int, indent as int, mid, store@, resolved.0 as int);
                lemma_fits_resolution_grows(
                    original,
                    body.0 as int,
                    indent as int,
                    true,
                    *old(cursor),
                    width as int,
                    mid,
                    store@,
                    resolved.0 as int,
                );
                assert(children_below(store@[new_idx.0 as int], new_idx.0 as int));
            }
            (new_idx, fits)
        },
        Document::TryCatch(try_body, catch_body) => {
            let try_body = *try_body;
            let catch_body = *catch_body;
            let mut trial = *cursor;
            let (resolved, fits) = resolve_at(store, try_body, indent, flattened, &mut trial, context, Ghost(original));
            if fits {
                *cursor = trial;
                (resolved, true)
            } else {
                resolve_at(store, catch_body, indent, flattened, cursor, context, Ghost(original))
            }
        },
        Document::List(list) => {
            let mut children: Vec<DocumentIdx> = Vec::new();
            let mut j: usize = 0;
            while j < list.len()
                invariant
                    j <= list@.len(),
                    children@ == list@.take(j as int),
                decreases list@.len() - j,
            {
                children.push(list[j]);
                j = j + 1;
                proof {
                    assert(children@ =~= list@.take(j as int));
                }
            }
            proof {
                assert(children@ =~= list@);
                lemma_list_children_below(children@, idx.0 as int);
            }
            let ghost start_cursor = *cursor;
            let mut resolved: Vec<DocumentIdx> = Vec::new();
            let mut fits = true;
            let mut i: usize = 0;
            while i < children.len()
                invariant
                    store.wf(),
                    extends(store@, old(store)@),
                    extends(old(store)@, original),
                    0 <= indent,
                    i <= children@.len(),
                    idx.0 < original.len(),
                    original[idx.0 as int] == DocumentView::List(children@),
                    forall|k: int| 0 <= k < children@.len() ==> (#[trigger] children@[k]).0 < idx.0,
                    resolved@.len() == i,
                    width == context.max_width,
                    forall|k: int|
                        0 <= k < i ==> (#[trigger] resolved@[k]).0 < store@.len() && printable(
                            store@,
                            resolved@[k].0 as int,
                            indent as int,
                        ),
                    forall|k: int|
                        0 <= k < i ==> resolves_to(
                            original,
                            children@[k].0 as int,
                            indent as int,
                            store@,
                            (#[trigger] resolved@[k]).0 as int,
                        ),
                    fits_list(
                        original,
                        idx.0 as int,
                        children@,
                        i as int,
                        indent as int,
                        flattened,
                        start_cursor,
                        width as int,
                        store@,
                        resolved@,
                    ),
                    (*cursor, fits) == lay_out_list(
                        original,
                        idx.0 as int,
                        children@,
                        i as int,
                        indent as int,
                        flattened,
                        start_cursor,
                        width as int,
                    ),
                decreases children@.len() - i,
            {
                let child = children[i];
                proof {
                    assert(children@[i as int] == child);
                }
                let ghost before = store@;
                let ghost before_resolved = resolved@;
                let (child_resolved, child_fits) = resolve_at(store, child, indent, flattened, cursor, context, Ghost(original));
                proof {
                    assert forall|k: int| 0 <= k < i implies (#[trigger] resolved@[k]).0 < store@.len()
                        && printable(store@, resolved@[k].0 as int, indent as int) by {
                        lemma_printable_grows(before, store@, resolved@[k].0 as int, indent as int);
                    }
                    assert forall|k: int| 0 <= k < i implies resolves_to(
                        original,
                        children@[k].0 as int,
                        indent as int,
                        store@,
                        (#[trigger] resolved@[k]).0 as int,
                    ) by {
                        lemma_resolves_to_grows(original, children@[k].0 as int, indent as int, before, store@, resolved@[k].0 as int);
                    }
                    lemma_fits_list_grows(
                        original,
                        idx.0 as int,
                        children@,
                        i as int,
                        indent as int,
                        flattened,
                        start_cursor,
                        width as int,
                        before,
                        store@,
                        resolved@,
                    );
                }
                resolved.push(child_resolved);
                proof {
                    lemma_fits_list_push(
                        original,
                        idx.0 as int,
                        children@,
                        i as int,
                        indent as int,
                        flattened,
                        start_cursor,
                        width as int,
                        store@,
                        before_resolved,
                        child_resolved,
                    );
                }
                fits = fits && child_fits;
                i = i + 1;
            }
            let ghost before = store@;
            let new_idx = store.add(Document::List(resolved));
            proof {
                assert(children_below(store@[new_idx.0 as int], new_idx.0 as int));
                assert forall|k: int| 0 <= k < resolved@.len() implies (#[trigger] resolved@[k]).0
                    < new_idx.0 && printable(store@, resolved@[k].0 as int, indent as int) by {
                    lemma_printable_grows(before, store@, resolved@[k].0 as int, indent as int);
                }
                assert forall|k: int| 0 <= k < children@.len() implies (#[trigger] children@[k]).0
                    < idx.0 && resolves_to(
                    original,
                    children@[k].0 as int,
                    indent as int,
                    store@,
                    resolved@[k].0 as int,
                ) by {
                    lemma_resolves_to_grows(original, children@[k].0 as int, indent as int, before, store@, resolved@[k].0 as int);
                }
                lemma_fits_list_grows(
                    original,
                    idx.0 as int,
                    children@,
                    children@.len() as int,
                    indent as int,
                    flattened,
                    start_cursor,
                    width as int,
                    before,
                    store@,
                    resolved@,
                );
            }
            (new_idx, fits)
        },
    }
}

/// A list's picked layout, one child further: what held of the earlier
/// children's resolutions holds with one more resolution appended, and
/// the new child's resolution from where they leave the cursor extends it.
proof fn lemma_fits_list_push(
    original: Seq<DocumentView>,
    i: int,
    children: Seq<DocumentIdx>,
    n: int,
    indent: int,
    flattened: bool,
    cursor: Cursor,
    width: int,
    resolved: Seq<DocumentView>,
    rs: Seq<DocumentIdx>,
    next: DocumentIdx,
)
    requires
        0 <= n < children.len(),
        rs.len() == n,
        fits_list(original, i, children, n, indent, flattened, cursor, width, resolved, rs),
        children[n].0 < i,
        fits_resolution(
            original,
            children[n].0 as int,
            indent,
            flattened,
            lay_out_list(original, i, children, n, indent, flattened, cursor, width).0,
            width,
            resolved,
            next.0 as int,
        ),
    ensures
        fits_list(original, i, children, n + 1, indent, flattened, cursor, width, resolved, rs.push(next)),
{
    lemma_fits_list_prefix(original, i, children, n, indent, flattened, cursor, width, resolved, rs, rs.push(next));
}

/// [`fits_list`] of the first `n` children reads only the first `n`
/// resolutions.
proof fn lemma_fits_list_prefix(
    original: Seq<DocumentView>,
    i: int,
    children: Seq<DocumentIdx>,
    n: int,
    indent: int,
    flattened: bool,
    cursor: Cursor,
    width: int,
    resolved: Seq<DocumentView>,
    rs: Seq<DocumentIdx>,
    longer: Seq<DocumentIdx>,
)
    requires
        fits_list(original, i, children, n, indent, flattened, cursor, width, resolved, rs),
        n <= rs.len() <= longer.len(),
        forall|k: int| 0 <= k < rs.len() ==> #[trigger] longer[k] == rs[k],
    ensures
        fits_list(original, i, children, n, indent, flattened, cursor, width, resolved, longer),
    decreases n,
{
    if n > 0 {
        lemma_fits_list_prefix(original, i, children, n - 1, indent, flattened, cursor, width, resolved, rs, longer);
        assert(longer[n - 1] == rs[n - 1]);
    }
}

/// Resolves every `TryCatch` of the document at `root` for printing from
/// the start of a line: a try branch stays exactly when it lays out within
/// `context.max_width` from where it starts, else its catch branch takes
/// its place. Returns the resolved document, which is printable.
pub fn resolve_try_catch(
    store: &mut InternedDocumentStore,
    root: DocumentIdx,
    context: &PrintingContext,
) -> (resolved: DocumentIdx)
    requires
        old(store).wf(),
        old(store).valid(root),
    ensures
        final(store).wf(),
        extends(final(store)@, old(store)@),
        printable(final(store)@, resolved.0 as int, 0),
        resolves_to(old(store)@, root.0 as int, 0, final(store)@, resolved.0 as int),
        fits_resolution(
            old(store)@,
            root.0 as int,
            0,
            false,
            Cursor { column: 0, last_was_newline: true },
            context.max_width as int,
            final(store)@,
            resolved.0 as int,
        ),
{
    let mut cursor = Cursor { column: 0, last_was_newline: true };
    resolve_at(store, root, 0, false, &mut cursor, context, Ghost(store@)).0
}

} // verus!
