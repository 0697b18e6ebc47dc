use std::collections::HashMap;
use vstd::prelude::*;

verus! {

broadcast use vstd::std_specs::hash::group_hash_axioms;

/// A handle on a document held by an [`InternedDocumentStore`].
#[derive(Clone, Copy, PartialEq, Eq, Hash, Debug, Structural)]
pub struct DocumentIdx(pub usize);

/// One node of a layout document. Children are referred to by index into
/// the store that holds them.
#[derive(Debug)]
pub enum Document {
    Newline,
    Text(String),
    Nest(DocumentIdx, isize),
    Flatten(DocumentIdx),
    List(Vec<DocumentIdx>),
    TryCatch(DocumentIdx, DocumentIdx),
    Raw(String),
    /// Reaches the output byte for byte: no indentation, no whitespace
    /// handling (string literals).
    Verbatim(String),
}

/// The mathematical value of a [`Document`]: text as characters, lists as
/// sequences of indices.
pub enum DocumentView {
    Newline,
    Text(Seq<char>),
    Nest(DocumentIdx, isize),
    Flatten(DocumentIdx),
    List(Seq<DocumentIdx>),
    TryCatch(DocumentIdx, DocumentIdx),
    Raw(Seq<char>),
    Verbatim(Seq<char>),
}

impl View for Document {
    type V = DocumentView;

    open spec fn view(&self) -> DocumentView {
        match self {
            Document::Newline => DocumentView::Newline,
            Document::Text(text) => DocumentView::Text(text@),
            Document::Nest(body, by) => DocumentView::Nest(*body, *by),
            Document::Flatten(body) => DocumentView::Flatten(*body),
            Document::List(children) => DocumentView::List(children@),
            Document::TryCatch(a, b) => DocumentView::TryCatch(*a, *b),
            Document::Raw(text) => DocumentView::Raw(text@),
            Document::Verbatim(text) => DocumentView::Verbatim(text@),
        }
    }
}

/// Every child index of `document` is below `bound`.
pub open spec fn children_below(document: DocumentView, bound: int) -> bool {
    match document {
        DocumentView::Nest(body, _) => body.0 < bound,
        DocumentView::Flatten(body) => body.0 < bound,
        DocumentView::List(children) => forall|i: int|
            0 <= i < children.len() ==> (#[trigger] children[i]).0 < bound,
        DocumentView::TryCatch(a, b) => a.0 < bound && b.0 < bound,
        _ => true,
    }
}

/// The documents of a store after adding `document`: unchanged when an
/// equal one is already stored, else with it appended.
pub open spec fn add_step(stored: Seq<DocumentView>, document: DocumentView) -> Seq<DocumentView> {
    if stored.contains(document) {
        stored
    } else {
        stored.push(document)
    }
}

/// The documents of a store after adding each of `documents` in turn.
pub open spec fn add_all(stored: Seq<DocumentView>, documents: Seq<DocumentView>) -> Seq<DocumentView>
    decreases documents.len(),
{
    if documents.len() == 0 {
        stored
    } else {
        add_step(add_all(stored, documents.drop_last()), documents.last())
    }
}

/// Whether no document is stored twice.
pub open spec fn no_duplicates(stored: Seq<DocumentView>) -> bool {
    forall|i: int, j: int| 0 <= i < stored.len() && 0 <= j < stored.len() && i != j ==> stored[i] != stored[j]
}

/// Over any sequence of adds, every index keeps the document it named,
/// no document is ever stored twice, and every added document is stored.
pub proof fn law_adds_keep_and_deduplicate(stored: Seq<DocumentView>, documents: Seq<DocumentView>)
    requires
        no_duplicates(stored),
    ensures
        stored.len() <= add_all(stored, documents).len(),
        forall|i: int| 0 <= i < stored.len() ==> #[trigger] add_all(stored, documents)[i] == stored[i],
        no_duplicates(add_all(stored, documents)),
        forall|k: int| 0 <= k < documents.len() ==> add_all(stored, documents).contains(#[trigger] documents[k]),
    decreases documents.len(),
{
    if documents.len() > 0 {
        let init = documents.drop_last();
        law_adds_keep_and_deduplicate(stored, init);
        let before = add_all(stored, init);
        let d = documents.last();
        assert forall|k: int| 0 <= k < documents.len() implies add_all(stored, documents).contains(
            #[trigger] documents[k],
        ) by {
            if k < init.len() {
                assert(init[k] == documents[k]);
                let w = choose|w: int| 0 <= w < before.len() && before[w] == init[k];
                assert(add_all(stored, documents)[w] == documents[k]);
            } else {
                if before.contains(d) {
                } else {
                    assert(add_all(stored, documents)[before.len() as int] == d);
                }
            }
        }
    }
}

/// In a store without duplicates two indices are the same exactly when
/// they name equal documents: with [`law_adds_keep_and_deduplicate`],
/// `add(d1)` and any later `add(d2)` return the same index exactly when
/// `d1 == d2`, and each index keeps naming its document over any later
/// adds.
pub proof fn law_indices_identify_documents(stored: Seq<DocumentView>, i: int, j: int)
    requires
        no_duplicates(stored),
        0 <= i < stored.len(),
        0 <= j < stored.len(),
    ensures
        (i == j) <==> (stored[i] == stored[j]),
{
}

/// Adding `d` and then `more` is adding `[d] + more`.
proof fn lemma_add_all_front(stored: Seq<DocumentView>, d: DocumentView, more: Seq<DocumentView>)
    ensures
        add_all(add_step(stored, d), more) == add_all(stored, seq![d] + more),
    decreases more.len(),
{
    if more.len() == 0 {
        assert(seq![d] + more =~= seq![d]);
        assert(seq![d].drop_last() =~= Seq::<DocumentView>::empty());
        assert(add_all(stored, Seq::<DocumentView>::empty()) == stored);
        assert(add_all(stored, seq![d]) == add_step(stored, d));
    } else {
        lemma_add_all_front(stored, d, more.drop_last());
        let whole = seq![d] + more;
        assert(whole.drop_last() =~= seq![d] + more.drop_last());
        assert(whole.last() == more.last());
        assert(add_all(stored, whole) == add_step(add_all(stored, whole.drop_last()), whole.last()));
    }
}

/// The index `add(d1)` returns keeps naming `d1` over any later adds, and
/// a later `add(d2)` returns the same index exactly when `d2 == d1`.
pub proof fn law_add_indices_are_stable(
    stored: Seq<DocumentView>,
    d1: DocumentView,
    i: int,
    between: Seq<DocumentView>,
    d2: DocumentView,
    j: int,
)
    requires
        no_duplicates(stored),
        0 <= i < add_step(stored, d1).len(),
        add_step(stored, d1)[i] == d1,
        0 <= j < add_step(add_all(add_step(stored, d1), between), d2).len(),
        add_step(add_all(add_step(stored, d1), between), d2)[j] == d2,
    ensures
        add_step(add_all(add_step(stored, d1), between), d2)[i] == d1,
        (i == j) <==> (d1 == d2),
{
    let first = add_step(stored, d1);
    assert(add_all(stored, seq![d1]) == first) by {
        lemma_add_all_front(stored, d1, Seq::empty());
        assert(seq![d1] + Seq::<DocumentView>::empty() =~= seq![d1]);
        assert(add_all(first, Seq::<DocumentView>::empty()) == first);
    }
    law_adds_keep_and_deduplicate(stored, seq![d1]);
    let all = seq![d1] + between + seq![d2];
    lemma_add_all_front(stored, d1, between + seq![d2]);
    assert(seq![d1] + (between + seq![d2]) =~= all);
    assert((between + seq![d2]).drop_last() =~= between);
    assert(add_all(first, between + seq![d2]) == add_step(add_all(first, between), d2));
    law_adds_keep_and_deduplicate(first, between + seq![d2]);
}

/// Modulus of the bucket hash; every hash value stays below it.
pub const HASH_MODULUS: u64 = 4294967291;

pub open spec fn hash_step(h: u64, x: u64) -> u64 {
    ((h * 31 + x % HASH_MODULUS) % (HASH_MODULUS as int)) as u64
}

pub open spec fn hash_bytes(h: u64, bytes: Seq<u8>) -> u64
    decreases bytes.len(),
{
    if bytes.len() == 0 {
        h
    } else {
        hash_step(hash_bytes(h, bytes.drop_last()), bytes.last() as u64)
    }
}

pub open spec fn hash_indices(h: u64, indices: Seq<DocumentIdx>) -> u64
    decreases indices.len(),
{
    if indices.len() == 0 {
        h
    } else {
        hash_step(hash_indices(h, indices.drop_last()), indices.last().0 as u64)
    }
}

/// The bucket a document is filed under in the store.
pub open spec fn document_hash(document: DocumentView) -> u64 {
    match document {
        DocumentView::Newline => hash_step(0, 1),
        DocumentView::Text(text) => hash_bytes(hash_step(0, 2), vstd::utf8::encode_utf8(text)),
        DocumentView::Nest(body, by) => hash_step(
            hash_step(hash_step(0, 3), body.0 as u64),
            by as u64,
        ),
        DocumentView::Flatten(body) => hash_step(hash_step(0, 4), body.0 as u64),
        DocumentView::List(children) => hash_indices(hash_step(0, 5), children),
        DocumentView::TryCatch(a, b) => hash_step(
            hash_step(hash_step(0, 6), a.0 as u64),
            b.0 as u64,
        ),
        DocumentView::Raw(text) => hash_bytes(hash_step(0, 7), vstd::utf8::encode_utf8(text)),
        DocumentView::Verbatim(text) => hash_bytes(
            hash_step(0, 8),
            vstd::utf8::encode_utf8(text),
        ),
    }
}

fn step(h: u64, x: u64) -> (r: u64)
    requires
        h < HASH_MODULUS,
    ensures
        r == hash_step(h, x),
        r < HASH_MODULUS,
{
    (h * 31 + x % HASH_MODULUS) % HASH_MODULUS
}

fn hash_of_text(h0: u64, text: &String) -> (r: u64)
    requires
        h0 < HASH_MODULUS,
    ensures
        r == hash_bytes(h0, vstd::utf8::encode_utf8(text@)),
        r < HASH_MODULUS,
{
    let bytes = text.as_str().as_bytes();
    let mut h = h0;
    let mut i: usize = 0;
    while i < bytes.len()
        invariant
            i <= bytes@.len(),
            bytes@ == vstd::utf8::encode_utf8(text@),
            h == hash_bytes(h0, bytes@.take(i as int)),
            h < HASH_MODULUS,
        decreases bytes@.len() - i,
    {
        assert(bytes@.take(i + 1).drop_last() == bytes@.take(i as int));
        h = step(h, bytes[i] as u64);
        i = i + 1;
    }
    assert(bytes@.take(i as int) == bytes@);
    h
}

fn hash_of_indices(h0: u64, indices: &Vec<DocumentIdx>) -> (r: u64)
    requires
        h0 < HASH_MODULUS,
    ensures
        r == hash_indices(h0, indices@),
        r < HASH_MODULUS,
{
    let mut h = h0;
    let mut i: usize = 0;
    while i < indices.len()
        invariant
            i <= indices@.len(),
            h == hash_indices(h0, indices@.take(i as int)),
            h < HASH_MODULUS,
        decreases indices@.len() - i,
    {
        assert(indices@.take(i + 1).drop_last() == indices@.take(i as int));
        h = step(h, indices[i].0 as u64);
        i = i + 1;
    }
    assert(indices@.take(i as int) == indices@);
    h
}

/// The bucket hash of `document`.
fn hash_document(document: &Document) -> (r: u64)
    ensures
        r == document_hash(document@),
{
    match document {
        Document::Newline => step(0, 1),
        Document::Text(text) => hash_of_text(step(0, 2), text),
        Document::Nest(body, by) => step(step(step(0, 3), body.0 as u64), *by as u64),
        Document::Flatten(body) => step(step(0, 4), body.0 as u64),
        Document::List(children) => hash_of_indices(step(0, 5), children),
        Document::TryCatch(a, b) => step(step(step(0, 6), a.0 as u64), b.0 as u64),
        Document::Raw(text) => hash_of_text(step(0, 7), text),
        Document::Verbatim(text) => hash_of_text(step(0, 8), text),
    }
}

fn same_indices(a: &Vec<DocumentIdx>, b: &Vec<DocumentIdx>) -> (r: bool)
    ensures
        r == (a@ == b@),
{
    if a.len() != b.len() {
        return false;
    }
    let mut i: usize = 0;
    while i < a.len()
        invariant
            a@.len() == b@.len(),
            i <= a@.len(),
            forall|j: int| 0 <= j < i ==> a@[j] == b@[j],
        decreases a@.len() - i,
    {
        if a[i].0 != b[i].0 {
            return false;
        }
        i = i + 1;
    }
    assert(a@ =~= b@);
    true
}

/// Whether two documents are the same value.
pub fn same_document(a: &Document, b: &Document) -> (r: bool)
    ensures
        r == (a@ == b@),
{
    match (a, b) {
        (Document::Newline, Document::Newline) => true,
        (Document::Text(x), Document::Text(y)) => x.eq(y),
        (Document::Nest(x, m), Document::Nest(y, n)) => x.0 == y.0 && *m == *n,
        (Document::Flatten(x), Document::Flatten(y)) => x.0 == y.0,
        (Document::List(x), Document::List(y)) => same_indices(x, y),
        (Document::TryCatch(x1, x2), Document::TryCatch(y1, y2)) => x1.0 == y1.0 && x2.0 == y2.0,
        (Document::Raw(x), Document::Raw(y)) => x.eq(y),
        (Document::Verbatim(x), Document::Verbatim(y)) => x.eq(y),
        _ => false,
    }
}

/// Holds documents so that each distinct value is stored once: adding a
/// value that is already there hands back its existing index.
pub struct InternedDocumentStore {
    documents: Vec<Document>,
    inverse: HashMap<u64, Vec<usize>>,
}

impl View for InternedDocumentStore {
    type V = Seq<DocumentView>;

    closed spec fn view(&self) -> Seq<DocumentView> {
        self.documents@.map_values(|d: Document| d@)
    }
}

impl InternedDocumentStore {
    /// The buckets file every document under its hash, and only there.
    closed spec fn buckets_consistent(&self) -> bool {
        &&& forall|i: int|
            0 <= i < self@.len() ==> {
                &&& #[trigger] self.inverse@.contains_key(document_hash(self@[i]))
                &&& self.inverse@[document_hash(self@[i])]@.contains(i as usize)
            }
        &&& forall|h: u64, j: int|
            #![trigger self.inverse@[h]@[j]]
            self.inverse@.contains_key(h) && 0 <= j < self.inverse@[h]@.len() ==> {
                &&& self.inverse@[h]@[j] < self@.len()
                &&& document_hash(self@[self.inverse@[h]@[j] as int]) == h
            }
    }

    /// Every child of a document is stored before it.
    pub open spec fn acyclic(&self) -> bool {
        forall|i: int| 0 <= i < self@.len() ==> children_below(#[trigger] self@[i], i)
    }

    /// No value is stored twice.
    pub open spec fn distinct(&self) -> bool {
        forall|i: int, j: int|
            0 <= i < self@.len() && 0 <= j < self@.len() && i != j ==> self@[i] != self@[j]
    }

    /// The store's invariant: acyclic, without duplicates, and with its
    /// lookup buckets in step with its contents.
    pub open spec fn wf(&self) -> bool {
        &&& self.acyclic()
        &&& self.distinct()
        &&& self.lookup_ok()
    }

    pub closed spec fn lookup_ok(&self) -> bool {
        self.buckets_consistent()
    }

    pub open spec fn valid(&self, idx: DocumentIdx) -> bool {
        idx.0 < self@.len()
    }

    /// An empty store.
    pub fn new() -> (store: Self)
        ensures
            store.wf(),
            store@ == Seq::<DocumentView>::empty(),
    {
        let store = InternedDocumentStore { documents: Vec::new(), inverse: HashMap::new() };
        assert(store@ =~= Seq::<DocumentView>::empty());
        store
    }

    /// The number of distinct documents stored.
    pub fn len(&self) -> (n: usize)
        ensures
            n == self@.len(),
    {
        self.documents.len()
    }

    /// Stores `document` unless an equal value is already stored, and
    /// returns the index of the stored value.
    pub fn add(&mut self, document: Document) -> (idx: DocumentIdx)
        requires
            old(self).wf(),
            children_below(document@, old(self)@.len() as int),
        ensures
            final(self).wf(),
            final(self).valid(idx),
            final(self)@[idx.0 as int] == document@,
            old(self)@.contains(document@) ==> final(self)@ == old(self)@,
            !old(self)@.contains(document@) ==> final(self)@ == old(self)@.push(document@),
            final(self)@ == add_step(old(self)@, document@),
    {
        let h = hash_document(&document);
        let ghost old_view = self@;
        let found: Option<usize> = match self.inverse.get(&h) {
            Some(bucket) => {
                let mut k: usize = 0;
                let mut result: Option<usize> = None;
                while k < bucket.len()
                    invariant
                        self.wf(),
                        self@ == old_view,
                        self.inverse@.contains_key(h),
                        bucket@ == self.inverse@[h]@,
                        h == document_hash(document@),
                        k <= bucket@.len(),
                        result is None ==> forall|j: int| 0 <= j < k ==> self@[bucket@[j] as int] != document@,
                        result matches Some(i) ==> i < self@.len() && self@[i as int] == document@,
                    decreases bucket@.len() - k,
                {
                    if result.is_none() {
                        let i = bucket[k];
                        assert(self.inverse@[h]@[k as int] == i);
                        if same_document(&self.documents[i], &document) {
                            result = Some(i);
                        }
                    }
                    k = k + 1;
                }
                result
            },
            None => None,
        };
        match found {
            Some(i) => {
                assert(old(self)@.contains(document@)) by {
                    assert(self@[i as int] == document@);
                }
                DocumentIdx(i)
            },
            None => {
                assert(!old(self)@.contains(document@)) by {
                    if old(self)@.contains(document@) {
                        assert(self.documents.len() == self.documents@.len());
                        let i = choose|i: int| 0 <= i < self@.len() && self@[i] == document@;
                        assert(i as usize as int == i);
                        assert(self.inverse@.contains_key(document_hash(self@[i])));
                        let b = self.inverse@[h]@;
                        assert(b.contains(i as usize));
                        let j = choose|j: int| 0 <= j < b.len() && b[j] == i as usize;
                        assert(self@[b[j] as int] == document@);
                    }
                }
                let new_idx = self.documents.len();
                let mut bucket = match self.inverse.remove(&h) {
                    Some(bucket) => bucket,
                    None => Vec::new(),
                };
                let ghost old_bucket = bucket@;
                bucket.push(new_idx);
                self.inverse.insert(h, bucket);
                self.documents.push(document);
                proof {
                    assert(self@ =~= old_view.push(document@));
                    assert forall|i: int| 0 <= i < self@.len() implies {
                        &&& #[trigger] self.inverse@.contains_key(document_hash(self@[i]))
                        &&& self.inverse@[document_hash(self@[i])]@.contains(i as usize)
                    } by {
                        if i < old_view.len() {
                            assert(self@[i] == old_view[i]);
                            if document_hash(old_view[i]) == h {
                                assert(old(self).inverse@[h]@.contains(i as usize));
                                assert(old_bucket == old(self).inverse@[h]@);
                                let j = choose|j: int| 0 <= j < old_bucket.len() && old_bucket[j] == i as usize;
                                assert(self.inverse@[h]@[j] == i as usize);
                            } else {
                                assert(old(self).inverse@.contains_key(document_hash(old_view[i])));
                                assert(self.inverse@[document_hash(old_view[i])] == old(self).inverse@[document_hash(old_view[i])]);
                            }
                        } else {
                            assert(self.inverse@[h]@[old_bucket.len() as int] == new_idx);
                        }
                    }
                    assert forall|hh: u64, j: int|
                        #![trigger self.inverse@[hh]@[j]]
                        self.inverse@.contains_key(hh) && 0 <= j < self.inverse@[hh]@.len() implies {
                            &&& self.inverse@[hh]@[j] < self@.len()
                            &&& document_hash(self@[self.inverse@[hh]@[j] as int]) == hh
                        } by {
                        if hh == h {
                            if j < old_bucket.len() {
                                assert(old(self).inverse@.contains_key(h));
                                assert(old_bucket == old(self).inverse@[h]@);
                                assert(old(self).inverse@[h]@[j] == self.inverse@[hh]@[j]);
                            }
                        } else {
                            assert(old(self).inverse@.contains_key(hh));
                            assert(old(self).inverse@[hh]@[j] == self.inverse@[hh]@[j]);
                        }
                    }
                    assert forall|i: int| 0 <= i < self@.len() implies children_below(#[trigger] self@[i], i) by {
                        if i < old_view.len() {
                            assert(self@[i] == old(self)@[i]);
                        }
                    }
                }
                DocumentIdx(new_idx)
            },
        }
    }

    /// The document stored at `idx`.
    pub fn get(&self, idx: DocumentIdx) -> (document: &Document)
        requires
            self.valid(idx),
        ensures
            document@ == self@[idx.0 as int],
    {
        &self.documents[idx.0]
    }

    /// Mutable access to the document stored at `idx`. Changing it through
    /// the reference changes only that entry; the store's interning
    /// invariant is then the caller's to restore.
    pub fn get_mut(&mut self, idx: DocumentIdx) -> (document: &mut Document)
        requires
            old(self).valid(idx),
        ensures
            document@ == old(self)@[idx.0 as int],
            final(self)@ == old(self)@.update(idx.0 as int, final(document)@),
    {
        let r = &mut self.documents[idx.0];
        r
    }
}


/// Horizontal whitespace the writer holds back.
pub open spec fn is_blank(c: char) -> bool {
    c == ' ' || c == '\t'
}

pub open spec fn spaces(n: int) -> Seq<char> {
    Seq::new(n as nat, |i: int| ' ')
}

/// The state of a [`Writer`]: what it has written, its indentation, whether
/// the current line has no content yet, and the whitespace held back.
pub struct WriterState {
    pub out: Seq<char>,
    pub indent: int,
    pub at_line_start: bool,
    pub pending: Seq<char>,
}

/// Opens the line's content: the indent (at a line start), then the
/// held-back whitespace.
pub open spec fn flushed(w: WriterState) -> WriterState {
    WriterState {
        out: w.out + (if w.at_line_start { spaces(w.indent) } else { Seq::empty() }) + w.pending,
        indent: w.indent,
        at_line_start: false,
        pending: Seq::empty(),
    }
}

/// One character through the writer: a line break drops held-back
/// whitespace, blanks are held back, anything else opens the line's
/// content and is written.
pub open spec fn put_char(w: WriterState, c: char) -> WriterState {
    if c == '\n' {
        WriterState { out: w.out.push('\n'), indent: w.indent, at_line_start: true, pending: Seq::empty() }
    } else if is_blank(c) {
        WriterState { pending: w.pending.push(c), ..w }
    } else {
        let f = flushed(w);
        WriterState { out: f.out.push(c), ..f }
    }
}

/// Text through the writer, character by character.
pub open spec fn put_str(w: WriterState, s: Seq<char>) -> WriterState
    decreases s.len(),
{
    if s.len() == 0 {
        w
    } else {
        put_char(put_str(w, s.drop_last()), s.last())
    }
}

/// Text that bypasses indentation and whitespace handling.
pub open spec fn put_verbatim(w: WriterState, text: Seq<char>) -> WriterState {
    if text.len() == 0 {
        w
    } else {
        let f = flushed(w);
        WriterState { out: f.out + text, at_line_start: text.last() == '\n', ..f }
    }
}

pub open spec fn with_indent(w: WriterState, indent: int) -> WriterState {
    WriterState { indent: indent, ..w }
}

/// No line of the output ends in whitespace, and no whitespace waits in
/// the output itself: it is all held back in `pending`.
pub open spec fn clean(w: WriterState) -> bool {
    &&& forall|i: int| 0 < i < w.out.len() && w.out[i] == '\n' ==> !is_blank(#[trigger] w.out[i - 1])
    &&& w.out.len() > 0 ==> !is_blank(w.out.last())
    &&& forall|i: int| 0 <= i < w.pending.len() ==> is_blank(#[trigger] w.pending[i])
}

pub proof fn lemma_put_str_indent(w: WriterState, s: Seq<char>)
    ensures
        put_str(w, s).indent == w.indent,
    decreases s.len(),
{
    if s.len() > 0 {
        lemma_put_str_indent(w, s.drop_last());
    }
}

/// Writing text in two pieces is writing it in one.
pub proof fn lemma_put_str_append(w: WriterState, a: Seq<char>, b: Seq<char>)
    ensures
        put_str(put_str(w, a), b) == put_str(w, a + b),
    decreases b.len(),
{
    if b.len() == 0 {
        assert(a + b =~= a);
    } else {
        lemma_put_str_append(w, a, b.drop_last());
        assert((a + b).drop_last() =~= a + b.drop_last());
        assert((a + b).last() == b.last());
    }
}

pub proof fn lemma_put_char_clean(w: WriterState, c: char)
    requires
        clean(w),
    ensures
        clean(put_char(w, c)),
{
    let r = put_char(w, c);
    if c == '\n' {
        assert forall|i: int| 0 < i < r.out.len() && r.out[i] == '\n' implies !is_blank(#[trigger] r.out[i - 1]) by {
            if i < w.out.len() {
                assert(r.out[i] == w.out[i]);
                assert(r.out[i - 1] == w.out[i - 1]);
            } else {
                assert(r.out[i - 1] == w.out.last());
            }
        }
    } else if is_blank(c) {
    } else {
        let f = flushed(w);
        let mid = (if w.at_line_start { spaces(w.indent) } else { Seq::empty() }) + w.pending;
        assert(f.out == w.out + mid);
        assert forall|k: int| 0 <= k < mid.len() implies is_blank(#[trigger] mid[k]) by {
            if w.at_line_start {
                if k < spaces(w.indent).len() {
                    assert(mid[k] == ' ');
                } else {
                    assert(mid[k] == w.pending[k - spaces(w.indent).len()]);
                }
            } else {
                assert(mid[k] == w.pending[k]);
            }
        }
        assert forall|i: int| 0 < i < r.out.len() && r.out[i] == '\n' implies !is_blank(#[trigger] r.out[i - 1]) by {
            if i < w.out.len() {
                assert(r.out[i] == w.out[i]);
                assert(r.out[i - 1] == w.out[i - 1]);
            } else if i < w.out.len() + mid.len() {
                assert(r.out[i] == mid[i - w.out.len()]);
            } else {
                assert(r.out[i] == c);
            }
        }
    }
}

/// Text through a clean writer leaves it clean: no line the writer prints
/// ends in whitespace.
pub proof fn lemma_put_str_clean(w: WriterState, s: Seq<char>)
    requires
        clean(w),
    ensures
        clean(put_str(w, s)),
    decreases s.len(),
{
    if s.len() > 0 {
        lemma_put_str_clean(w, s.drop_last());
        lemma_put_char_clean(put_str(w, s.drop_last()), s.last());
    }
}

/// Indenting writer that holds indentation and whitespace back until
/// non-whitespace content follows on the same line, so no line ends in
/// whitespace and a whitespace-only line is empty. Every line of a
/// [`Self::write_str`] write is indented to the current depth;
/// [`Self::verbatim`] bypasses all of it.
pub struct Writer {
    out: String,
    indent: usize,
    at_line_start: bool,
    pending: String,
}

impl View for Writer {
    type V = WriterState;

    closed spec fn view(&self) -> WriterState {
        WriterState {
            out: self.out@,
            indent: self.indent as int,
            at_line_start: self.at_line_start,
            pending: self.pending@,
        }
    }
}

impl Writer {
    /// A writer appending to `out`, at depth zero and at a line start.
    pub fn new(out: String) -> (writer: Self)
        ensures
            writer@ == (WriterState {
                out: out@,
                indent: 0,
                at_line_start: true,
                pending: Seq::empty(),
            }),
    {
        Writer { out, indent: 0, at_line_start: true, pending: String::new() }
    }

    /// Everything written so far.
    pub fn into_output(self) -> (out: String)
        ensures
            out@ == self@.out,
    {
        self.out
    }

    /// The current indentation depth.
    pub fn depth(&self) -> (depth: usize)
        ensures
            depth == self@.indent,
    {
        self.indent
    }

    fn indent(&mut self, by: isize)
        requires
            old(self)@.indent <= isize::MAX,
            0 <= old(self)@.indent + by <= isize::MAX,
        ensures
            final(self)@ == with_indent(old(self)@, old(self)@.indent + by),
    {
        self.indent = (self.indent as isize + by) as usize;
    }

    /// Opens the line's content: the indent, then the held-back whitespace.
    fn flush(&mut self)
        ensures
            final(self)@ == flushed(old(self)@),
    {
        let ghost mid = if self.at_line_start { spaces(self.indent as int) } else { Seq::empty() };
        if self.at_line_start {
            self.at_line_start = false;
            let mut i: usize = 0;
            while i < self.indent
                invariant
                    i <= self.indent,
                    self.indent == old(self).indent,
                    self.pending@ == old(self).pending@,
                    !self.at_line_start,
                    self.out@ == old(self).out@ + spaces(i as int),
                decreases self.indent - i,
            {
                self.out.push(' ');
                i = i + 1;
                assert(self.out@ =~= old(self).out@ + spaces(i as int));
            }
        }
        assert(self.out@ =~= old(self).out@ + mid);
        let pending = self.pending.as_str();
        self.out.append(pending);
        self.pending = String::new();
        assert(self@.out =~= flushed(old(self)@).out);
    }

    /// Writes one line's worth of text (no line break in it).
    fn line_part(&mut self, part: &str)
        ensures
            final(self)@ == put_str(old(self)@, part@),
    {
        let ghost chars = part@;
        let ghost mut k: int = 0;
        for c in it: part.chars()
            invariant
                k == it.index(),
                it.seq() == chars,
                self@ == put_str(old(self)@, chars.take(k)),
        {
            proof {
                assert(it.seq().take(k + 1).drop_last() == it.seq().take(k));
                assert(it.seq().take(k + 1).last() == c);
            }
            if c == '\n' {
                self.newline();
            } else if c == ' ' || c == '\t' {
                self.pending.push(c);
            } else {
                self.flush();
                self.out.push(c);
            }
            proof { k = k + 1; }
        }
        assert(chars.take(k) =~= chars);
    }

    fn newline(&mut self)
        ensures
            final(self)@ == put_char(old(self)@, '\n'),
    {
        self.pending = String::new();
        self.at_line_start = true;
        self.out.push('\n');
    }

    /// Writes `text` as is, after opening the line's content; the line
    /// counts as started unless `text` ends a line.
    pub fn verbatim(&mut self, text: &str)
        ensures
            final(self)@ == put_verbatim(old(self)@, text@),
    {
        if text.is_empty() {
            return;
        }
        self.flush();
        let ghost base = self@;
        let mut last_is_newline = false;
        let ghost chars = text@;
        let ghost mut k: int = 0;
        for c in it: text.chars()
            invariant
                k == it.index(),
                it.seq() == chars,
                self@ == (WriterState { out: base.out + chars.take(k), ..base }),
                k > 0 ==> last_is_newline == (chars[k - 1] == '\n'),
        {
            proof {
                assert(chars.take(k + 1) == chars.take(k).push(c));
            }
            self.out.push(c);
            last_is_newline = c == '\n';
            proof { k = k + 1; }
        }
        assert(chars.take(k) =~= chars);
        self.at_line_start = last_is_newline;
    }

    /// Writes `s`: every line indented to the current depth, whitespace
    /// held back until content follows on its line.
    pub fn write_str(&mut self, s: &str)
        ensures
            final(self)@ == put_str(old(self)@, s@),
            clean(old(self)@) ==> clean(final(self)@),
    {
        self.line_part(s);
        proof {
            if clean(old(self)@) {
                lemma_put_str_clean(old(self)@, s@);
            }
        }
    }
}


/// A document whose every node prints: it is stored, holds no `TryCatch`,
/// and its nesting never takes the depth below zero or past `isize::MAX`.
pub open spec fn printable(store: Seq<DocumentView>, idx: int, indent: int) -> bool
    decreases idx,
{
    &&& 0 <= idx < store.len()
    &&& 0 <= indent <= isize::MAX
    &&& match store[idx] {
        DocumentView::Nest(body, by) => {
            &&& body.0 < idx
            &&& 0 <= indent + by <= isize::MAX
            &&& printable(store, body.0 as int, indent + by)
        },
        DocumentView::Flatten(body) => body.0 < idx && printable(store, body.0 as int, indent),
        DocumentView::List(children) => forall|i: int|
            0 <= i < children.len() ==> (#[trigger] children[i]).0 < idx && printable(
                store,
                children[i].0 as int,
                indent,
            ),
        DocumentView::TryCatch(_, _) => false,
        _ => true,
    }
}

/// What printing the document at `idx` does to the writer `w`, and whether
/// the last thing printed was a line break. `flattened` prints every line
/// break as a single space (none right after another).
pub open spec fn print_doc(
    store: Seq<DocumentView>,
    w: WriterState,
    idx: int,
    flattened: bool,
    last_was_newline: bool,
) -> (WriterState, bool)
    decreases idx, 2int, 0int,
{
    if !(0 <= idx < store.len()) {
        (w, false)
    } else {
        match store[idx] {
            DocumentView::Newline => if flattened {
                if !last_was_newline {
                    (put_str(w, seq![' ']), true)
                } else {
                    (w, true)
                }
            } else {
                (put_str(w, seq!['\n']), true)
            },
            DocumentView::Text(text) => (put_str(w, text), false),
            DocumentView::Raw(text) => (put_str(w, text), false),
            DocumentView::Verbatim(text) => (put_verbatim(w, text), false),
            DocumentView::Nest(body, by) => if body.0 < idx {
                let r = print_doc(store, with_indent(w, w.indent + by), body.0 as int, flattened, false);
                (with_indent(r.0, w.indent), r.1)
            } else {
                (w, false)
            },
            DocumentView::Flatten(body) => if body.0 < idx {
                print_doc(store, w, body.0 as int, true, false)
            } else {
                (w, false)
            },
            DocumentView::List(children) => print_children(store, w, idx, children, children.len() as int, flattened),
            DocumentView::TryCatch(_, _) => (w, false),
        }
    }
}

/// Printing the first `n` of `children` (of the list at `parent`) in turn.
pub open spec fn print_children(
    store: Seq<DocumentView>,
    w: WriterState,
    parent: int,
    children: Seq<DocumentIdx>,
    n: int,
    flattened: bool,
) -> (WriterState, bool)
    decreases parent, 1int, n,
{
    if n <= 0 || n > children.len() {
        (w, false)
    } else {
        let r = print_children(store, w, parent, children, n - 1, flattened);
        if children[n - 1].0 < parent {
            print_doc(store, r.0, children[n - 1].0 as int, flattened, r.1)
        } else {
            r
        }
    }
}

/// Every document of `store` prints through the writer's whitespace
/// handling: none is a `Verbatim` string literal.
pub open spec fn no_verbatim(store: Seq<DocumentView>) -> bool {
    forall|i: int| 0 <= i < store.len() ==> !(#[trigger] store[i] is Verbatim)
}

/// No line that printing ends in whitespace: printing a document that
/// holds no string literal through a clean writer leaves it clean.
pub proof fn law_printing_leaves_no_trailing_whitespace(
    store: Seq<DocumentView>,
    w: WriterState,
    idx: int,
    flattened: bool,
    last_was_newline: bool,
)
    requires
        clean(w),
        no_verbatim(store),
    ensures
        clean(print_doc(store, w, idx, flattened, last_was_newline).0),
    decreases idx, 2int, 0int,
{
    if 0 <= idx < store.len() {
        assert(!(store[idx] is Verbatim));
        match store[idx] {
            DocumentView::Newline => {
                if flattened {
                    if !last_was_newline {
                        lemma_put_str_clean(w, seq![' ']);
                    }
                } else {
                    lemma_put_str_clean(w, seq!['\n']);
                }
            },
            DocumentView::Text(text) => {
                lemma_put_str_clean(w, text);
            },
            DocumentView::Raw(text) => {
                lemma_put_str_clean(w, text);
            },
            DocumentView::Nest(body, by) => {
                if body.0 < idx {
                    law_printing_leaves_no_trailing_whitespace(
                        store,
                        with_indent(w, w.indent + by),
                        body.0 as int,
                        flattened,
                        false,
                    );
                }
            },
            DocumentView::Flatten(body) => {
                if body.0 < idx {
                    law_printing_leaves_no_trailing_whitespace(store, w, body.0 as int, true, false);
                }
            },
            DocumentView::List(children) => {
                lemma_children_clean(store, w, idx, children, children.len() as int, flattened);
            },
            _ => {},
        }
    }
}

proof fn lemma_children_clean(
    store: Seq<DocumentView>,
    w: WriterState,
    parent: int,
    children: Seq<DocumentIdx>,
    n: int,
    flattened: bool,
)
    requires
        clean(w),
        no_verbatim(store),
    ensures
        clean(print_children(store, w, parent, children, n, flattened).0),
    decreases parent, 1int, n,
{
    if 0 < n <= children.len() {
        lemma_children_clean(store, w, parent, children, n - 1, flattened);
        let r = print_children(store, w, parent, children, n - 1, flattened);
        if children[n - 1].0 < parent {
            law_printing_leaves_no_trailing_whitespace(
                store,
                r.0,
                children[n - 1].0 as int,
                flattened,
                r.1,
            );
        }
    }
}

/// Prints the resolved document at `idx` through `f`. A line break prints
/// as a line break, or, under `flattened`, as one space unless the last
/// thing printed was already a line break; `last_was_newline` carries that
/// between calls.
pub fn print_resolved(
    store: &InternedDocumentStore,
    f: &mut Writer,
    idx: DocumentIdx,
    flattened: bool,
    last_was_newline: &mut bool,
)
    requires
        store.acyclic(),
        printable(store@, idx.0 as int, old(f)@.indent),
    ensures
        (final(f)@, *final(last_was_newline)) == print_doc(
            store@,
            old(f)@,
            idx.0 as int,
            flattened,
            *old(last_was_newline),
        ),
        final(f)@.indent == old(f)@.indent,
    decreases idx.0,
{
    let last_was_newline_old = *last_was_newline;
    *last_was_newline = false;
    proof {
        assert(children_below(store@[idx.0 as int], idx.0 as int));
    }
    match store.get(idx) {
        Document::Newline => {
            if flattened {
                if !last_was_newline_old {
                    proof {
                        reveal_strlit(" ");
                        assert(" "@ =~= seq![' ']);
                    }
                    f.write_str(" ");
                    proof {
                        lemma_put_str_indent(old(f)@, seq![' ']);
                    }
                }
            } else {
                proof {
                    reveal_strlit("\n");
                    assert("\n"@ =~= seq!['\n']);
                }
                f.write_str("\n");
                proof {
                    lemma_put_str_indent(old(f)@, seq!['\n']);
                }
            }
            *last_was_newline = true;
        },
        Document::Text(text) => {
            f.write_str(text.as_str());
            proof {
                lemma_put_str_indent(old(f)@, text@);
            }
        },
        Document::Raw(text) => {
            f.write_str(text.as_str());
            proof {
                lemma_put_str_indent(old(f)@, text@);
            }
        },
        Document::Verbatim(text) => {
            f.verbatim(text.as_str());
        },
        Document::Nest(body_idx, by) => {
            f.indent(*by);
            print_resolved(store, f, *body_idx, flattened, last_was_newline);
            f.indent(-*by);
        },
        Document::Flatten(body_idx) => {
            print_resolved(store, f, *body_idx, true, last_was_newline);
        },
        Document::List(children) => {
            let ghost w0 = f@;
            let mut i: usize = 0;
            while i < children.len()
                invariant
                    store.acyclic(),
                    printable(store@, idx.0 as int, w0.indent),
                    store@[idx.0 as int] == DocumentView::List(children@),
                    w0 == old(f)@,
                    i <= children@.len(),
                    (f@, *last_was_newline) == print_children(
                        store@,
                        w0,
                        idx.0 as int,
                        children@,
                        i as int,
                        flattened,
                    ),
                    f@.indent == w0.indent,
                decreases children@.len() - i,
            {
                let child = children[i];
                proof {
                    assert(children@[i as int] == child);
                }
                print_resolved(store, f, child, flattened, last_was_newline);
                i = i + 1;
            }
        },
        Document::TryCatch(_, _) => {},
    }
}


pub open spec fn digit_char(d: int) -> char {
    if d == 0 {
        '0'
    } else if d == 1 {
        '1'
    } else if d == 2 {
        '2'
    } else if d == 3 {
        '3'
    } else if d == 4 {
        '4'
    } else if d == 5 {
        '5'
    } else if d == 6 {
        '6'
    } else if d == 7 {
        '7'
    } else if d == 8 {
        '8'
    } else {
        '9'
    }
}

/// The decimal digits of `n`, most significant first.
pub open spec fn decimal_digits(n: nat) -> Seq<char>
    decreases n,
{
    if n < 10 {
        seq![digit_char(n as int)]
    } else {
        decimal_digits(n / 10).push(digit_char((n % 10) as int))
    }
}

/// `n` in decimal, with a leading `-` when negative.
pub open spec fn decimal(n: int) -> Seq<char> {
    if n < 0 {
        seq!['-'] + decimal_digits((-n) as nat)
    } else {
        decimal_digits(n as nat)
    }
}

fn digit(d: u64) -> (c: char)
    requires
        d < 10,
    ensures
        c == digit_char(d as int),
{
    if d == 0 {
        '0'
    } else if d == 1 {
        '1'
    } else if d == 2 {
        '2'
    } else if d == 3 {
        '3'
    } else if d == 4 {
        '4'
    } else if d == 5 {
        '5'
    } else if d == 6 {
        '6'
    } else if d == 7 {
        '7'
    } else if d == 8 {
        '8'
    } else {
        '9'
    }
}

pub(crate) fn push_digits(out: &mut String, n: u64)
    ensures
        final(out)@ == old(out)@ + decimal_digits(n as nat),
    decreases n,
{
    if n >= 10 {
        push_digits(out, n / 10);
    }
    out.push(digit(n % 10));
    proof {
        if n < 10 {
            assert(decimal_digits(n as nat) == seq![digit_char(n as int)]);
        }
    }
}

/// `n` in decimal.
pub fn decimal_string(n: isize) -> (s: String)
    ensures
        s@ == decimal(n as int),
{
    let mut s = String::new();
    if n < 0 {
        s.push('-');
        push_digits(&mut s, (-(n as i128)) as u64);
    } else {
        push_digits(&mut s, n as u64);
    }
    s
}

/// How far [`debug_print`] indents each level.
pub const DEBUG_INDENT: isize = 4;

/// A document whose debug rendering keeps the depth within `isize::MAX`.
pub open spec fn debug_printable(store: Seq<DocumentView>, idx: int, indent: int) -> bool
    decreases idx,
{
    &&& 0 <= idx < store.len()
    &&& 0 <= indent <= isize::MAX
    &&& match store[idx] {
        DocumentView::Nest(body, _) => {
            &&& body.0 < idx
            &&& indent + DEBUG_INDENT <= isize::MAX
            &&& debug_printable(store, body.0 as int, indent + DEBUG_INDENT)
        },
        DocumentView::Flatten(body) => {
            &&& body.0 < idx
            &&& indent + DEBUG_INDENT <= isize::MAX
            &&& debug_printable(store, body.0 as int, indent + DEBUG_INDENT)
        },
        DocumentView::List(children) => children.len() > 0 ==> {
            &&& indent + DEBUG_INDENT <= isize::MAX
            &&& forall|i: int|
                0 <= i < children.len() ==> (#[trigger] children[i]).0 < idx && debug_printable(
                    store,
                    children[i].0 as int,
                    indent + DEBUG_INDENT,
                )
        },
        DocumentView::TryCatch(a, b) => {
            &&& a.0 < idx
            &&& b.0 < idx
            &&& indent + DEBUG_INDENT <= isize::MAX
            &&& debug_printable(store, a.0 as int, indent + DEBUG_INDENT)
            &&& debug_printable(store, b.0 as int, indent + DEBUG_INDENT)
        },
        _ => true,
    }
}

/// Every document of an acyclic store renders for debugging when the
/// depth has room for one level per index below it.
pub proof fn lemma_debug_printable(store: Seq<DocumentView>, idx: int, indent: int)
    requires
        forall|i: int| 0 <= i < store.len() ==> children_below(#[trigger] store[i], i),
        0 <= idx < store.len(),
        0 <= indent,
        indent + DEBUG_INDENT * (idx + 1) <= isize::MAX,
    ensures
        debug_printable(store, idx, indent),
    decreases idx,
{
    assert(children_below(store[idx], idx));
    match store[idx] {
        DocumentView::Nest(body, _) => {
            lemma_debug_printable(store, body.0 as int, indent + DEBUG_INDENT);
        },
        DocumentView::Flatten(body) => {
            lemma_debug_printable(store, body.0 as int, indent + DEBUG_INDENT);
        },
        DocumentView::List(children) => {
            assert forall|i: int| 0 <= i < children.len() implies (#[trigger] children[i]).0 < idx
                && debug_printable(store, children[i].0 as int, indent + DEBUG_INDENT) by {
                lemma_debug_printable(store, children[i].0 as int, indent + DEBUG_INDENT);
            }
        },
        DocumentView::TryCatch(a, b) => {
            lemma_debug_printable(store, a.0 as int, indent + DEBUG_INDENT);
            lemma_debug_printable(store, b.0 as int, indent + DEBUG_INDENT);
        },
        _ => {},
    }
}

/// What [`debug_print`] of the document at `idx` does to the writer `w`:
/// each node as its variant name with its fields, children nested one
/// level deeper.
pub open spec fn debug_doc(store: Seq<DocumentView>, w: WriterState, idx: int) -> WriterState
    decreases idx, 2int, 0int,
{
    if !(0 <= idx < store.len()) {
        w
    } else {
        match store[idx] {
            DocumentView::Newline => put_str(w, "Newline"@),
            DocumentView::Text(text) => put_str(put_str(put_str(w, "Text(\""@), text), "\")"@),
            DocumentView::Raw(text) => put_str(put_str(put_str(w, "Raw(\""@), text), "\")"@),
            DocumentView::Verbatim(text) => put_str(
                put_str(put_str(w, "Verbatim(\""@), text),
                "\")"@,
            ),
            DocumentView::Nest(body, by) => if body.0 < idx {
                let w1 = put_str(w, "Nest(\n"@);
                let w2 = debug_doc(store, with_indent(w1, w.indent + DEBUG_INDENT), body.0 as int);
                let w3 = put_str(put_str(put_str(w2, ",\n"@), decimal(by as int)), "\n"@);
                put_str(with_indent(w3, w.indent), ")"@)
            } else {
                w
            },
            DocumentView::Flatten(body) => if body.0 < idx {
                let w1 = put_str(w, "Flatten(\n"@);
                let w2 = debug_doc(store, with_indent(w1, w.indent + DEBUG_INDENT), body.0 as int);
                let w3 = put_str(w2, "\n"@);
                put_str(with_indent(w3, w.indent), ")"@)
            } else {
                w
            },
            DocumentView::List(children) => if children.len() == 0 {
                w
            } else {
                let w1 = put_str(w, "List(\n"@);
                let w2 = debug_children(
                    store,
                    with_indent(w1, w.indent + DEBUG_INDENT),
                    idx,
                    children,
                    children.len() as int,
                );
                put_str(with_indent(w2, w.indent), ")"@)
            },
            DocumentView::TryCatch(a, b) => if a.0 < idx && b.0 < idx {
                let w1 = put_str(w, "TryCatch(\n"@);
                let w2 = debug_doc(store, with_indent(w1, w.indent + DEBUG_INDENT), a.0 as int);
                let w3 = put_str(w2, ",\n"@);
                let w4 = debug_doc(store, w3, b.0 as int);
                let w5 = put_str(w4, ",\n"@);
                put_str(with_indent(w5, w.indent), ")"@)
            } else {
                w
            },
        }
    }
}

/// The first `n` of `children`, each followed by `,` and a line break.
pub open spec fn debug_children(
    store: Seq<DocumentView>,
    w: WriterState,
    parent: int,
    children: Seq<DocumentIdx>,
    n: int,
) -> WriterState
    decreases parent, 1int, n,
{
    if n <= 0 || n > children.len() {
        w
    } else {
        let w1 = debug_children(store, w, parent, children, n - 1);
        if children[n - 1].0 < parent {
            put_str(debug_doc(store, w1, children[n - 1].0 as int), ",\n"@)
        } else {
            w1
        }
    }
}

/// Writes `s` and keeps the depth, for the debug renderer.
fn put(f: &mut Writer, s: &str)
    ensures
        final(f)@ == put_str(old(f)@, s@),
        final(f)@.indent == old(f)@.indent,
{
    f.write_str(s);
    proof {
        lemma_put_str_indent(old(f)@, s@);
    }
}

/// Renders the unresolved document at `idx` for debugging.
pub fn debug_print(store: &InternedDocumentStore, f: &mut Writer, idx: DocumentIdx)
    requires
        store.acyclic(),
        debug_printable(store@, idx.0 as int, old(f)@.indent),
    ensures
        final(f)@ == debug_doc(store@, old(f)@, idx.0 as int),
        final(f)@.indent == old(f)@.indent,
    decreases idx.0,
{
    proof {
        assert(children_below(store@[idx.0 as int], idx.0 as int));
    }
    match store.get(idx) {
        Document::Newline => put(f, "Newline"),
        Document::Text(text) => {
            put(f, "Text(\"");
            put(f, text.as_str());
            put(f, "\")");
        },
        Document::Nest(body_idx, by) => {
            put(f, "Nest(\n");
            f.indent(DEBUG_INDENT);
            debug_print(store, f, *body_idx);
            put(f, ",\n");
            let number = decimal_string(*by);
            put(f, number.as_str());
            put(f, "\n");
            f.indent(-DEBUG_INDENT);
            put(f, ")");
        },
        Document::Flatten(body_idx) => {
            put(f, "Flatten(\n");
            f.indent(DEBUG_INDENT);
            debug_print(store, f, *body_idx);
            put(f, "\n");
            f.indent(-DEBUG_INDENT);
            put(f, ")");
        },
        Document::List(children) => {
            if children.len() == 0 {
                return;
            }
            put(f, "List(\n");
            f.indent(DEBUG_INDENT);
            let ghost w1 = f@;
            let mut i: usize = 0;
            while i < children.len()
                invariant
                    store.acyclic(),
                    debug_printable(store@, idx.0 as int, old(f)@.indent),
                    store@[idx.0 as int] == DocumentView::List(children@),
                    children@.len() > 0,
                    w1.indent == old(f)@.indent + DEBUG_INDENT,
                    i <= children@.len(),
                    f@ == debug_children(store@, w1, idx.0 as int, children@, i as int),
                    f@.indent == w1.indent,
                decreases children@.len() - i,
            {
                let child = children[i];
                proof {
                    assert(children@[i as int] == child);
                }
                debug_print(store, f, child);
                put(f, ",\n");
                i = i + 1;
            }
            f.indent(-DEBUG_INDENT);
            put(f, ")");
        },
        Document::TryCatch(try_body, catch_body) => {
            put(f, "TryCatch(\n");
            f.indent(DEBUG_INDENT);
            debug_print(store, f, *try_body);
            put(f, ",\n");
            debug_print(store, f, *catch_body);
            put(f, ",\n");
            f.indent(-DEBUG_INDENT);
            put(f, ")");
        },
        Document::Raw(raw) => {
            put(f, "Raw(\"");
            put(f, raw.as_str());
            put(f, "\")");
        },
        Document::Verbatim(text) => {
            put(f, "Verbatim(\"");
            put(f, text.as_str());
            put(f, "\")");
        },
    }
}

} // verus!
