use std::ops::Range;
use vstd::prelude::*;
use vstd::string::StringSliceAdditionalSpecFns;

verus! {

/// A comment as the lexer reports it: a `//` comment by its token's byte
/// span, a block comment by the byte spans of its opening and closing
/// tokens.
pub enum Comment {
    Line(Range<usize>),
    Block(Range<usize>, Range<usize>),
}

impl Comment {
    /// The bytes the whole comment covers.
    pub open spec fn span_start(&self) -> int {
        match self {
            Comment::Line(span) => span.start as int,
            Comment::Block(start, _) => start.start as int,
        }
    }

    pub open spec fn span_end(&self) -> int {
        match self {
            Comment::Line(span) => span.end as int,
            Comment::Block(_, end) => end.end as int,
        }
    }

    pub open spec fn is_line(&self) -> bool {
        self is Line
    }
}

/// How a comment relates to the code around it, decided once from source
/// coordinates.
#[derive(Clone, Copy, PartialEq, Eq, Debug, Structural)]
pub enum CommentClass {
    /// On its own line(s): prints on its own line above the next construct.
    OwnLine,
    /// A single-line `/* */` directly before code: prints inline before it.
    InlineLeading,
    /// Code precedes it on its line: prints after that code.
    Trailing,
}

/// `u8::is_ascii_whitespace`: space, tab, line feed, form feed, carriage
/// return.
pub open spec fn is_ws(b: u8) -> bool {
    b == 32 || b == 9 || b == 10 || b == 12 || b == 13
}

/// Separators and closers (`,;)}]>`); a single-line block comment followed
/// by one of these attaches backward (trailing), otherwise forward
/// (inline).
pub open spec fn is_closer(b: u8) -> bool {
    b == 44 || b == 59 || b == 41 || b == 125 || b == 93 || b == 62
}

/// `,` and `;`, which may stand between a construct and its trailing
/// comment.
pub open spec fn is_separator(b: u8) -> bool {
    b == 44 || b == 59
}

fn ws(b: u8) -> (r: bool)
    ensures
        r == is_ws(b),
{
    b == 32 || b == 9 || b == 10 || b == 12 || b == 13
}

fn closer(b: u8) -> (r: bool)
    ensures
        r == is_closer(b),
{
    b == 44 || b == 59 || b == 41 || b == 125 || b == 93 || b == 62
}

/// The number of line feeds among the first `n` bytes.
pub open spec fn count_newlines(bytes: Seq<u8>, n: int) -> int
    decreases n,
{
    if n <= 0 || n > bytes.len() {
        0
    } else {
        count_newlines(bytes, n - 1) + if bytes[n - 1] == 10 {
            1int
        } else {
            0int
        }
    }
}

/// The byte offsets at which the lines of the first `n` bytes start.
pub open spec fn line_starts_upto(bytes: Seq<u8>, n: int) -> Seq<usize>
    decreases n,
{
    if n <= 0 || n > bytes.len() {
        seq![0usize]
    } else {
        let s = line_starts_upto(bytes, n - 1);
        if bytes[n - 1] == 10 {
            s.push(n as usize)
        } else {
            s
        }
    }
}

/// The (zero-based) line holding byte `byte`: the line feeds before it.
/// Past the end, the last line.
pub open spec fn line_index(bytes: Seq<u8>, byte: int) -> int {
    if byte < 0 {
        0
    } else if byte <= bytes.len() {
        count_newlines(bytes, byte)
    } else {
        count_newlines(bytes, bytes.len() as int)
    }
}

pub proof fn lemma_count_monotone(bytes: Seq<u8>, a: int, b: int)
    requires
        0 <= a <= b <= bytes.len(),
    ensures
        count_newlines(bytes, a) <= count_newlines(bytes, b),
    decreases b - a,
{
    if a < b {
        lemma_count_monotone(bytes, a, b - 1);
    }
}

/// The line starts of `bytes[..n]` are exactly the starts at or before
/// each position: the first `k` of them are the ones not past `b`.
pub proof fn lemma_line_starts(bytes: Seq<u8>, n: int)
    requires
        0 <= n <= bytes.len(),
        bytes.len() < usize::MAX,
    ensures
        count_newlines(bytes, n) >= 0,
        line_starts_upto(bytes, n).len() == count_newlines(bytes, n) + 1,
        line_starts_upto(bytes, n)[0] == 0,
        forall|k: int|
            0 <= k < line_starts_upto(bytes, n).len() ==> #[trigger] line_starts_upto(bytes, n)[k]
                <= n,
        forall|b: int, k: int|
            #![trigger line_starts_upto(bytes, n)[k], count_newlines(bytes, b)]
            0 <= b <= n && 0 <= k < line_starts_upto(bytes, n).len() ==> (
            line_starts_upto(bytes, n)[k] <= b <==> k < count_newlines(bytes, b) + 1),
        forall|b: int, k: int|
            #![trigger line_starts_upto(bytes, n)[k], line_index(bytes, b)]
            n == bytes.len() && 0 <= b && 0 <= k < line_starts_upto(bytes, n).len() ==> (
            line_starts_upto(bytes, n)[k] <= b <==> k < line_index(bytes, b) + 1),
    decreases n,
{
    if n > 0 {
        lemma_line_starts(bytes, n - 1);
        let s = line_starts_upto(bytes, n - 1);
        let t = line_starts_upto(bytes, n);
        assert(t[0] == s[0]);
        assert forall|b: int, k: int|
            0 <= b <= n && 0 <= k < t.len() implies (t[k] <= b <==> k < count_newlines(bytes, b) + 1) by {
            if b < n {
                lemma_count_monotone(bytes, b, n - 1);
                if k < s.len() {
                    assert(t[k] == s[k]);
                } else {
                    assert(t[k] == n);
                }
            } else {
                if k < s.len() {
                    assert(t[k] == s[k]);
                    assert(s[k] <= n - 1);
                }
            }
        }
        assert forall|k: int| 0 <= k < t.len() implies #[trigger] t[k] <= n by {
            if k < s.len() {
                assert(t[k] == s[k]);
            }
        }
    }
    assert forall|b: int, k: int|
        n == bytes.len() && 0 <= b && 0 <= k < line_starts_upto(bytes, n).len() implies (
        line_starts_upto(bytes, n)[k] <= b <==> k < line_index(bytes, b) + 1) by {
        if b > n {
            assert(line_starts_upto(bytes, n)[k] <= n);
            assert(line_starts_upto(bytes, n)[k] <= n ==> k < count_newlines(bytes, n) + 1);
        } else {
            assert(0 <= b <= n);
        }
    }
}

/// The part of a comment map's state that claims never change: the source,
/// its line starts, and the comments' spans and kinds.
pub struct CommentLayout {
    pub bytes: Seq<u8>,
    pub line_starts: Seq<usize>,
    pub starts: Seq<int>,
    pub ends: Seq<int>,
    pub is_line: Seq<bool>,
}

impl CommentLayout {
    pub open spec fn len(self) -> int {
        self.starts.len() as int
    }

    /// Source, line table and comment spans are consistent: comments are
    /// in source order, disjoint, and inside the source.
    pub open spec fn wf(self) -> bool {
        &&& self.bytes.len() < usize::MAX
        &&& self.line_starts == line_starts_upto(self.bytes, self.bytes.len() as int)
        &&& self.ends.len() == self.starts.len()
        &&& self.is_line.len() == self.starts.len()
        &&& forall|k: int|
            0 <= k < self.len() ==> 0 <= #[trigger] self.starts[k] <= self.ends[k] <= self.bytes.len()
        &&& forall|k: int, l: int|
            #![trigger self.ends[k], self.starts[l]]
            0 <= k < l < self.len() ==> self.ends[k] <= self.starts[l]
    }

    /// The comment covering byte `byte`, if any.
    pub open spec fn covering(self, byte: int) -> Option<int> {
        if exists|k: int| 0 <= k < self.len() && #[trigger] self.starts[k] <= byte < self.ends[k] {
            Some(choose|k: int| 0 <= k < self.len() && #[trigger] self.starts[k] <= byte < self.ends[k])
        } else {
            None
        }
    }

    /// Whether `i..end` holds only whitespace, comments, and (with
    /// `separators`) `,` and `;`.
    pub open spec fn clear(self, i: int, end: int, separators: bool) -> bool
        decreases self.bytes.len() - i,
    {
        if i >= end {
            true
        } else if i < 0 || i >= self.bytes.len() {
            false
        } else if is_ws(self.bytes[i]) || (separators && is_separator(self.bytes[i])) {
            self.clear(i + 1, end, separators)
        } else {
            match self.covering(i) {
                Some(k) => if i < self.ends[k] <= self.bytes.len() {
                    self.clear(self.ends[k], end, separators)
                } else {
                    false
                },
                None => false,
            }
        }
    }

    /// The first code byte in `i..line_end`, skipping whitespace and
    /// comments.
    pub open spec fn next_code(self, i: int, line_end: int) -> Option<u8>
        decreases self.bytes.len() - i,
    {
        if i >= line_end || i < 0 || i >= self.bytes.len() {
            None
        } else if is_ws(self.bytes[i]) {
            self.next_code(i + 1, line_end)
        } else {
            match self.covering(i) {
                Some(k) => if i < self.ends[k] <= self.bytes.len() {
                    self.next_code(self.ends[k], line_end)
                } else {
                    None
                },
                None => Some(self.bytes[i]),
            }
        }
    }

    pub open spec fn line_of(self, byte: int) -> int {
        line_index(self.bytes, byte)
    }

    /// Where `line` ends: the next line's start, or the end of the source.
    pub open spec fn line_end(self, line: int) -> int {
        if 0 <= line + 1 < self.line_starts.len() {
            self.line_starts[line + 1] as int
        } else {
            self.bytes.len() as int
        }
    }

    /// The class of the comment spanning `start..end`.
    pub open spec fn class_of(self, start: int, end: int, is_line: bool) -> CommentClass {
        let start_line = self.line_of(start);
        let end_line = self.line_of(end);
        let code_before = !self.clear(self.line_starts[start_line] as int, start, false);
        let multi_line = end_line > start_line;
        let after = self.next_code(end, self.line_end(end_line));
        if code_before {
            match after {
                Some(b) => if !is_line && !is_closer(b) {
                    CommentClass::InlineLeading
                } else {
                    CommentClass::Trailing
                },
                None => CommentClass::Trailing,
            }
        } else if !is_line && !multi_line {
            match after {
                Some(b) => if !is_closer(b) {
                    CommentClass::InlineLeading
                } else {
                    CommentClass::OwnLine
                },
                None => CommentClass::OwnLine,
            }
        } else {
            CommentClass::OwnLine
        }
    }
}

/// Disjoint comments in source order: a comment covering a byte is the
/// only one that does.
pub proof fn lemma_covering_unique(layout: CommentLayout, byte: int, k: int)
    requires
        layout.wf(),
        0 <= k < layout.len(),
        layout.starts[k] <= byte < layout.ends[k],
    ensures
        layout.covering(byte) == Some(k),
{
    let j = choose|j: int| 0 <= j < layout.len() && #[trigger] layout.starts[j] <= byte < layout.ends[j];
    if j < k {
        assert(layout.ends[j] <= layout.starts[k]);
    } else if j > k {
        assert(layout.ends[k] <= layout.starts[j]);
    }
}

#[derive(Clone, Copy)]
struct MappedComment<'source> {
    text: &'source str,
    start: usize,
    end: usize,
    start_line: usize,
    end_line: usize,
    is_line: bool,
    class: CommentClass,
    claimed: bool,
}

/// A claimed comment, ready to print.
#[derive(Clone, Copy)]
pub struct CommentToPrint<'source> {
    pub text: &'source str,
    pub start_line: usize,
    pub end_line: usize,
    /// The byte just past the comment.
    pub end: usize,
    /// Print inline (followed by a space) rather than on its own line.
    pub inline: bool,
    /// A `//` comment: nothing can print after it on its line.
    pub is_line: bool,
}

/// Which comments a claim takes.
#[derive(Clone, Copy)]
enum ClaimRule {
    /// Trailing comments on `line` starting strictly between `open` and
    /// `upper`.
    OpenTrailing { line: usize, open: usize, upper: usize },
    /// Non-trailing comments starting in `start..end`.
    Between { start: usize, end: usize },
    /// Comments lying within `start..end`.
    Within { start: usize, end: usize },
    /// All comments.
    Everything,
}

/// Owns every parser comment and hands each to exactly one claim site,
/// keyed by source byte positions. Whatever is never claimed is emitted at
/// the end of the root (comments are never lost) and counted as misplaced.
pub struct CommentMap<'source> {
    source: &'source str,
    line_starts: Vec<usize>,
    comments: Vec<MappedComment<'source>>,
    misplaced: usize,
}

impl<'source> CommentMap<'source> {
    pub closed spec fn layout(&self) -> CommentLayout {
        CommentLayout {
            bytes: self.source.spec_bytes(),
            line_starts: self.line_starts@,
            starts: self.comments@.map_values(|c: MappedComment<'source>| c.start as int),
            ends: self.comments@.map_values(|c: MappedComment<'source>| c.end as int),
            is_line: self.comments@.map_values(|c: MappedComment<'source>| c.is_line),
        }
    }

    /// The source the map's byte positions refer to.
    pub closed spec fn source(&self) -> &'source str {
        self.source
    }

    pub open spec fn count(&self) -> int {
        self.layout().len()
    }

    pub closed spec fn claimed_at(&self, k: int) -> bool {
        self.comments@[k].claimed
    }

    pub closed spec fn class_at(&self, k: int) -> CommentClass {
        self.comments@[k].class
    }

    pub closed spec fn start_line_at(&self, k: int) -> int {
        self.comments@[k].start_line as int
    }

    pub closed spec fn end_line_at(&self, k: int) -> int {
        self.comments@[k].end_line as int
    }

    pub closed spec fn misplaced_count(&self) -> int {
        self.misplaced as int
    }

    pub open spec fn start_at(&self, k: int) -> int {
        self.layout().starts[k]
    }

    pub open spec fn end_at(&self, k: int) -> int {
        self.layout().ends[k]
    }

    pub open spec fn is_line_at(&self, k: int) -> bool {
        self.layout().is_line[k]
    }

    /// The comment at `k` as a claim hands it out.
    pub closed spec fn printed(&self, k: int) -> CommentToPrint<'source> {
        Self::print_spec(self.comments@[k])
    }

    spec fn print_spec(c: MappedComment<'source>) -> CommentToPrint<'source> {
        CommentToPrint {
            text: c.text,
            start_line: c.start_line,
            end_line: c.end_line,
            end: c.end,
            inline: c.class == CommentClass::InlineLeading,
            is_line: c.is_line,
        }
    }

    /// Every comment's recorded text, lines and class agree with the
    /// source.
    pub closed spec fn wf(&self) -> bool {
        &&& self.layout().wf()
        &&& forall|k: int|
            0 <= k < self.comments@.len() ==> {
                let c = #[trigger] self.comments@[k];
                &&& c.start_line == self.layout().line_of(c.start as int)
                &&& c.end_line == self.layout().line_of(c.end as int)
                &&& c.text.spec_bytes() == self.source.spec_bytes().subrange(
                    c.start as int,
                    c.end as int,
                )
                &&& c.class == self.layout().class_of(c.start as int, c.end as int, c.is_line)
            }
    }

    /// `self` is `before` with only claim flags possibly changed.
    pub open spec fn same_layout(&self, before: &Self) -> bool {
        &&& self.layout() == before.layout()
        &&& self.source() == before.source()
        &&& self.misplaced_count() == before.misplaced_count()
        &&& forall|k: int|
            0 <= k < self.count() ==> {
                &&& #[trigger] self.printed(k) == before.printed(k)
                &&& self.class_at(k) == before.class_at(k)
                &&& self.start_line_at(k) == before.start_line_at(k)
                &&& self.end_line_at(k) == before.end_line_at(k)
            }
    }

    /// The indices, in source order, of the first `n` comments that are
    /// unclaimed and admitted by `admits`.
    pub open spec fn picks(&self, admits: spec_fn(int) -> bool, n: int) -> Seq<int>
        decreases n,
    {
        if n <= 0 {
            Seq::empty()
        } else {
            self.picks(admits, n - 1) + if !self.claimed_at(n - 1) && admits(n - 1) {
                seq![n - 1]
            } else {
                Seq::empty()
            }
        }
    }

    /// `self` results from `before` by claiming every unclaimed comment
    /// `admits` lets through, and `taken` is those comments in source
    /// order.
    pub open spec fn claimed_from(
        &self,
        before: &Self,
        admits: spec_fn(int) -> bool,
        taken: Seq<CommentToPrint<'source>>,
    ) -> bool {
        &&& self.same_layout(before)
        &&& forall|k: int|
            0 <= k < self.count() ==> #[trigger] self.claimed_at(k) == (before.claimed_at(k)
                || admits(k))
        &&& taken == before.picks(admits, before.count()).map_values(|k: int| before.printed(k))
    }
}


/// Which comments a claim rule admits.
spec fn rule_admits(map: &CommentMap, rule: ClaimRule, k: int) -> bool {
    match rule {
        ClaimRule::OpenTrailing { line, open, upper } => {
            &&& map.class_at(k) == CommentClass::Trailing
            &&& map.start_line_at(k) == line
            &&& map.start_at(k) > open
            &&& map.start_at(k) < upper
        },
        ClaimRule::Between { start, end } => map.between_admits(start as int, end as int, k),
        ClaimRule::Within { start, end } => map.within_admits(start as int, end as int, k),
        ClaimRule::Everything => true,
    }
}

/// The line holding `byte`, found by binary search in the line table.
fn line_in(line_starts: &Vec<usize>, Ghost(bytes): Ghost<Seq<u8>>, byte: usize) -> (line: usize)
    requires
        bytes.len() < usize::MAX,
        line_starts@ == line_starts_upto(bytes, bytes.len() as int),
    ensures
        line == line_index(bytes, byte as int),
        line < line_starts@.len(),
{
    proof {
        lemma_line_starts(bytes, bytes.len() as int);
        if byte <= bytes.len() {
            lemma_count_monotone(bytes, 0, byte as int);
            lemma_count_monotone(bytes, byte as int, bytes.len() as int);
        }
    }
    let ghost c = line_index(bytes, byte as int);
    let mut lo: usize = 0;
    let mut hi: usize = line_starts.len();
    while lo < hi
        invariant
            0 <= c,
            c + 1 <= line_starts@.len(),
            line_starts@ == line_starts_upto(bytes, bytes.len() as int),
            forall|k: int|
                0 <= k < line_starts@.len() ==> (#[trigger] line_starts@[k] <= byte <==> k < c + 1),
            lo <= c + 1 <= hi <= line_starts@.len(),
        decreases hi - lo,
    {
        let mid = lo + (hi - lo) / 2;
        if line_starts[mid] <= byte {
            lo = mid + 1;
        } else {
            hi = mid;
        }
    }
    lo - 1
}

impl<'source> CommentMap<'source> {
    pub fn line_of(&self, byte: usize) -> (line: usize)
        requires
            self.layout().wf(),
        ensures
            line == self.layout().line_of(byte as int),
            line < self.layout().line_starts.len(),
    {
        line_in(&self.line_starts, Ghost(self.source.spec_bytes()), byte)
    }

    /// The comment span covering `byte`, if any.
    fn comment_covering(&self, byte: usize) -> (span: Option<Range<usize>>)
        requires
            self.layout().wf(),
        ensures
            match self.layout().covering(byte as int) {
                Some(k) => span matches Some(s) && s.start == self.start_at(k) && s.end
                    == self.end_at(k),
                None => span is None,
            },
    {
        let ghost layout = self.layout();
        let mut lo: usize = 0;
        let mut hi: usize = self.comments.len();
        while lo < hi
            invariant
                layout == self.layout(),
                layout.wf(),
                hi <= self.comments@.len(),
                lo <= hi,
                forall|k: int| 0 <= k < lo ==> #[trigger] layout.starts[k] <= byte,
                forall|k: int| hi <= k < layout.len() ==> #[trigger] layout.starts[k] > byte,
            decreases hi - lo,
        {
            let mid = lo + (hi - lo) / 2;
            if self.comments[mid].start <= byte {
                proof {
                    assert forall|k: int| 0 <= k <= mid implies #[trigger] layout.starts[k] <= byte by {
                        if k < mid {
                            assert(layout.ends[k] <= layout.starts[mid as int]);
                        }
                    }
                }
                lo = mid + 1;
            } else {
                proof {
                    assert forall|k: int| mid <= k < layout.len() implies #[trigger] layout.starts[k] > byte by {
                        if k > mid {
                            assert(layout.starts[mid as int] <= layout.ends[mid as int]);
                            assert(layout.ends[mid as int] <= layout.starts[k]);
                        }
                    }
                }
                hi = mid;
            }
        }
        if lo == 0 {
            proof {
                if layout.covering(byte as int) is Some {
                    let k = choose|k: int|
                        0 <= k < layout.len() && #[trigger] layout.starts[k] <= byte < layout.ends[k];
                    assert(layout.starts[k] > byte);
                }
            }
            return None;
        }
        let k = lo - 1;
        let start = self.comments[k].start;
        let end = self.comments[k].end;
        if end > byte {
            proof {
                lemma_covering_unique(layout, byte as int, k as int);
            }
            Some(start..end)
        } else {
            proof {
                if layout.covering(byte as int) is Some {
                    let j = choose|j: int|
                        0 <= j < layout.len() && #[trigger] layout.starts[j] <= byte < layout.ends[j];
                    if j < k {
                        assert(layout.ends[j] <= layout.starts[k as int]);
                    } else if j > k {
                        assert(layout.starts[j] > byte);
                    }
                }
            }
            None
        }
    }

    /// Whether `range` holds only whitespace, comments, and (with
    /// `separators`) `,` and `;`.
    fn is_clear(&self, range: Range<usize>, separators: bool) -> (clear: bool)
        requires
            self.layout().wf(),
            range.end <= self.layout().bytes.len(),
        ensures
            clear == self.layout().clear(range.start as int, range.end as int, separators),
    {
        let ghost layout = self.layout();
        let bytes = self.source.as_bytes();
        let mut i = range.start;
        while i < range.end
            invariant
                layout == self.layout(),
                layout.wf(),
                bytes@ == layout.bytes,
                range.end <= bytes@.len(),
                layout.clear(i as int, range.end as int, separators) == layout.clear(
                    range.start as int,
                    range.end as int,
                    separators,
                ),
            decreases bytes@.len() - i,
        {
            let byte = bytes[i];
            if ws(byte) || (separators && (byte == 44 || byte == 59)) {
                i = i + 1;
            } else {
                match self.comment_covering(i) {
                    Some(span) => {
                        i = span.end;
                    },
                    None => {
                        return false;
                    },
                }
            }
        }
        true
    }

    /// The first code byte after `from` on `line`, skipping comments.
    fn next_code_on_line(&self, from: usize, line: usize) -> (code: Option<u8>)
        requires
            self.layout().wf(),
        ensures
            code == self.layout().next_code(from as int, self.layout().line_end(line as int)),
    {
        let ghost layout = self.layout();
        proof {
            lemma_line_starts(layout.bytes, layout.bytes.len() as int);
        }
        let bytes = self.source.as_bytes();
        let line_end = if line < self.line_starts.len() - 1 {
            self.line_starts[line + 1]
        } else {
            bytes.len()
        };
        let mut i = from;
        while i < line_end
            invariant
                layout == self.layout(),
                layout.wf(),
                bytes@ == layout.bytes,
                line_end <= bytes@.len(),
                line_end == layout.line_end(line as int),
                layout.next_code(i as int, line_end as int) == layout.next_code(
                    from as int,
                    line_end as int,
                ),
            decreases bytes@.len() - i,
        {
            let byte = bytes[i];
            if ws(byte) {
                i = i + 1;
            } else {
                match self.comment_covering(i) {
                    Some(span) => {
                        i = span.end;
                    },
                    None => {
                        return Some(byte);
                    },
                }
            }
        }
        None
    }

    fn classify(&self, comment: &MappedComment) -> (class: CommentClass)
        requires
            self.layout().wf(),
            comment.start <= comment.end <= self.layout().bytes.len(),
            comment.start_line == self.layout().line_of(comment.start as int),
            comment.end_line == self.layout().line_of(comment.end as int),
        ensures
            class == self.layout().class_of(comment.start as int, comment.end as int, comment.is_line),
    {
        proof {
            lemma_line_starts(self.layout().bytes, self.layout().bytes.len() as int);
            lemma_count_monotone(self.layout().bytes, 0, comment.start as int);
            lemma_count_monotone(self.layout().bytes, comment.start as int, self.layout().bytes.len() as int);
        }
        let line_start = self.line_starts[comment.start_line];
        proof {
            assert(line_start <= comment.start) by {
                assert(self.layout().line_starts[comment.start_line as int] <= comment.start as int
                    <==> (comment.start_line as int) < self.layout().line_of(comment.start as int) + 1);
            }
        }
        let code_before = !self.is_clear(line_start..comment.start, false);
        let multi_line = comment.end_line > comment.start_line;
        let after = self.next_code_on_line(comment.end, comment.end_line);
        if code_before {
            match after {
                Some(byte) => if !comment.is_line && !closer(byte) {
                    CommentClass::InlineLeading
                } else {
                    CommentClass::Trailing
                },
                None => CommentClass::Trailing,
            }
        } else if !comment.is_line && !multi_line {
            match after {
                Some(byte) => if !closer(byte) {
                    CommentClass::InlineLeading
                } else {
                    CommentClass::OwnLine
                },
                None => CommentClass::OwnLine,
            }
        } else {
            CommentClass::OwnLine
        }
    }

    fn to_print(comment: &MappedComment<'source>) -> (printed: CommentToPrint<'source>)
        ensures
            printed == Self::print_spec(*comment),
    {
        CommentToPrint {
            text: comment.text,
            start_line: comment.start_line,
            end_line: comment.end_line,
            end: comment.end,
            inline: comment.class == CommentClass::InlineLeading,
            is_line: comment.is_line,
        }
    }

    fn claim(&mut self, rule: ClaimRule) -> (taken: Vec<CommentToPrint<'source>>)
        requires
            old(self).wf(),
        ensures
            final(self).wf(),
            final(self).claimed_from(old(self), |k: int| rule_admits(old(self), rule, k), taken@),
    {
        let ghost admits = |k: int| rule_admits(old(self), rule, k);
        let mut result: Vec<CommentToPrint<'source>> = Vec::new();
        let mut idx: usize = 0;
        while idx < self.comments.len()
            invariant
                forall|k: int| #[trigger] admits(k) == rule_admits(old(self), rule, k),
                self.comments@.len() == old(self).comments@.len(),
                self.source == old(self).source,
                self.line_starts == old(self).line_starts,
                self.misplaced == old(self).misplaced,
                idx <= self.comments@.len(),
                forall|k: int|
                    0 <= k < self.comments@.len() ==> {
                        let c = #[trigger] self.comments@[k];
                        let o = old(self).comments@[k];
                        &&& c.text == o.text
                        &&& c.start == o.start
                        &&& c.end == o.end
                        &&& c.start_line == o.start_line
                        &&& c.end_line == o.end_line
                        &&& c.is_line == o.is_line
                        &&& c.class == o.class
                        &&& c.claimed == if k < idx {
                            o.claimed || admits(k)
                        } else {
                            o.claimed
                        }
                    },
                result@ == old(self).picks(admits, idx as int).map_values(
                    |k: int| old(self).printed(k),
                ),
            decreases self.comments@.len() - idx,
        {
            let comment = self.comments[idx];
            let admitted = match rule {
                ClaimRule::OpenTrailing { line, open, upper } => comment.class == CommentClass::Trailing
                    && comment.start_line == line && comment.start > open && comment.start < upper,
                ClaimRule::Between { start, end } => comment.class != CommentClass::Trailing
                    && start <= comment.start && comment.start < end,
                ClaimRule::Within { start, end } => comment.start >= start && comment.end <= end,
                ClaimRule::Everything => true,
            };
            proof {
                assert(old(self).comments@[idx as int] == comment);
                assert(old(self).start_at(idx as int) == comment.start);
                assert(old(self).end_at(idx as int) == comment.end);
                assert(admitted == rule_admits(old(self), rule, idx as int));
                assert(admitted == admits(idx as int));
            }
            let ghost before = result@;
            if !comment.claimed && admitted {
                let mut updated = comment;
                updated.claimed = true;
                self.comments.set(idx, updated);
                result.push(Self::to_print(&comment));
            }
            proof {
                assert(result@ =~= old(self).picks(admits, idx + 1).map_values(
                    |k: int| old(self).printed(k),
                )) by {
                    let p = old(self).picks(admits, idx as int);
                    if !comment.claimed && admitted {
                        assert(old(self).picks(admits, idx + 1) == p.push(idx as int));
                    } else {
                        assert(old(self).picks(admits, idx + 1) =~= p);
                    }
                }
            }
            idx = idx + 1;
        }
        proof {
            assert(self.layout() =~= old(self).layout()) by {
                assert(self.layout().starts =~= old(self).layout().starts);
                assert(self.layout().ends =~= old(self).layout().ends);
                assert(self.layout().is_line =~= old(self).layout().is_line);
            }
        }
        result
    }
}


/// Whether `start..end` of `source` can be cut out as text: inside the
/// source and on character boundaries.
pub open spec fn sliceable(source: &str, start: int, end: int) -> bool {
    &&& 0 <= start <= end <= source.spec_bytes().len()
    &&& vstd::utf8::is_char_boundary(source.spec_bytes(), end)
    &&& vstd::utf8::is_char_boundary(source.spec_bytes().subrange(0, end), start)
}

/// `source[start..end]`.
fn slice<'a>(source: &'a str, start: usize, end: usize) -> (text: &'a str)
    requires
        sliceable(source, start as int, end as int),
    ensures
        text.spec_bytes() == source.spec_bytes().subrange(start as int, end as int),
{
    let (head, _) = source.split_at(end);
    let (_, text) = head.split_at(start);
    proof {
        assert(text.spec_bytes() =~= source.spec_bytes().subrange(start as int, end as int));
    }
    text
}

/// A comment reduced to its span and kind.
pub open spec fn triple(c: Comment) -> (usize, usize, bool) {
    (c.span_start() as usize, c.span_end() as usize, c.is_line())
}

pub open spec fn sorted_by_start(s: Seq<(usize, usize, bool)>) -> bool {
    forall|i: int, j: int| 0 <= i < j < s.len() ==> (#[trigger] s[i]).0 <= (#[trigger] s[j]).0
}

/// Dropping, in source order, every comment that starts inside the last
/// one kept (a line comment inside a block comment is captured twice by
/// the parser; only the covering block comment is real). Also returns the
/// end of the last one kept.
pub open spec fn kept(s: Seq<(usize, usize, bool)>, n: int) -> (Seq<(usize, usize, bool)>, int)
    decreases n,
{
    if n <= 0 || n > s.len() {
        (Seq::empty(), 0)
    } else {
        let (k, covered_end) = kept(s, n - 1);
        if (s[n - 1].0 as int) < covered_end {
            (k, covered_end)
        } else {
            (k.push(s[n - 1]), s[n - 1].1 as int)
        }
    }
}

pub open spec fn triple_ok(source: &str, t: (usize, usize, bool)) -> bool {
    &&& sliceable(source, t.0 as int, t.1 as int)
}

impl<'source> CommentMap<'source> {
    /// Trailing comments on the line of `open` starting strictly between
    /// `open` and `upper`.
    pub open spec fn open_trailing_admits(&self, open: int, upper: int, k: int) -> bool {
        &&& self.class_at(k) == CommentClass::Trailing
        &&& self.start_line_at(k) == self.layout().line_of(open)
        &&& open < self.start_at(k) < upper
    }

    /// Own-line and inline-leading comments starting in `start..end`.
    pub open spec fn between_admits(&self, start: int, end: int, k: int) -> bool {
        &&& self.class_at(k) != CommentClass::Trailing
        &&& start <= self.start_at(k) < end
    }

    /// Comments lying within `start..end`.
    pub open spec fn within_admits(&self, start: int, end: int, k: int) -> bool {
        self.start_at(k) >= start && self.end_at(k) <= end
    }

    /// Whether comment `k` is adjacent to the construct at `anchor`: it
    /// ends at or before it, with only whitespace and comments up to the
    /// start of the anchor's line.
    pub open spec fn leads(&self, k: int, anchor: int) -> bool {
        let line_start = self.layout().line_starts[self.layout().line_of(anchor)] as int;
        &&& self.end_at(k) <= anchor
        &&& self.layout().clear(
            self.end_at(k),
            if line_start > self.end_at(k) {
                line_start
            } else {
                self.end_at(k)
            },
            false,
        )
    }

    /// The leading comments of the construct at `anchor`: ending before
    /// it; own-line or inline-leading (only inline-leading with
    /// `inline_only`); and adjacent to it, strictly (nothing but
    /// whitespace and comments up to `anchor`) or by [`Self::leads`].
    pub open spec fn leading_admits(
        &self,
        anchor: int,
        strict: bool,
        inline_only: bool,
        k: int,
    ) -> bool {
        &&& self.end_at(k) <= anchor
        &&& if inline_only {
            self.class_at(k) == CommentClass::InlineLeading
        } else {
            self.class_at(k) != CommentClass::Trailing
        }
        &&& if strict {
            self.layout().clear(self.end_at(k), anchor, false)
        } else {
            self.leads(k, anchor)
        }
    }

    /// The trailing comments of a construct ending at `end` on `end_line`:
    /// on that line after it, with only whitespace, separators and
    /// comments between.
    pub open spec fn trailing_admits(&self, end: int, end_line: int, k: int) -> bool {
        &&& self.class_at(k) == CommentClass::Trailing
        &&& self.start_line_at(k) == end_line
        &&& self.start_at(k) >= end
        &&& self.layout().clear(end, self.start_at(k), true)
    }

    /// Whether comment `k`, starting in `start..end`, rules out a flat
    /// layout: a line comment, a multi-line comment, or an own-line one.
    pub open spec fn breaks(&self, start: int, end: int, k: int) -> bool {
        &&& start <= self.start_at(k) < end
        &&& (self.is_line_at(k) || self.end_line_at(k) > self.start_line_at(k) || self.class_at(k)
            == CommentClass::OwnLine)
    }

    /// The unclaimed comments among the first `n` starting before
    /// `boundary`.
    pub open spec fn unclaimed_before(&self, boundary: int, n: int) -> int
        decreases n,
    {
        if n <= 0 {
            0
        } else {
            self.unclaimed_before(boundary, n - 1) + if !self.claimed_at(n - 1) && self.start_at(
                n - 1,
            ) < boundary {
                1int
            } else {
                0int
            }
        }
    }

    /// Comments past `m` that `admits` rejects add no picks.
    pub proof fn lemma_picks_stable(&self, admits: spec_fn(int) -> bool, m: int, n: int)
        requires
            0 <= m <= n,
            forall|k: int| m <= k < n ==> !#[trigger] admits(k),
        ensures
            self.picks(admits, n) == self.picks(admits, m),
        decreases n - m,
    {
        if m < n {
            self.lemma_picks_stable(admits, m, n - 1);
            assert(self.picks(admits, n) =~= self.picks(admits, n - 1));
        }
    }

    fn leads_exec(&self, comment: &MappedComment, anchor: usize) -> (r: bool)
        requires
            self.layout().wf(),
            anchor <= self.layout().bytes.len(),
            comment.end <= self.layout().bytes.len(),
        ensures
            r == (comment.end <= anchor && self.layout().clear(
                comment.end as int,
                if (self.layout().line_starts[self.layout().line_of(anchor as int)] as int)
                    > comment.end {
                    self.layout().line_starts[self.layout().line_of(anchor as int)] as int
                } else {
                    comment.end as int
                },
                false,
            )),
    {
        proof {
            lemma_line_starts(self.layout().bytes, self.layout().bytes.len() as int);
        }
        let line = self.line_of(anchor);
        let line_start = self.line_starts[line];
        proof {
            assert(self.layout().line_starts[line as int] <= self.layout().bytes.len());
        }
        let upto = if line_start > comment.end {
            line_start
        } else {
            comment.end
        };
        comment.end <= anchor && self.is_clear(comment.end..upto, false)
    }

    fn take_leading_inner(
        &mut self,
        anchor: usize,
        strict: bool,
        inline_only: bool,
    ) -> (taken: Vec<CommentToPrint<'source>>)
        requires
            old(self).wf(),
            anchor <= old(self).layout().bytes.len(),
        ensures
            final(self).wf(),
            final(self).claimed_from(
                old(self),
                |k: int| old(self).leading_admits(anchor as int, strict, inline_only, k),
                taken@,
            ),
    {
        let ghost admits = |k: int| old(self).leading_admits(anchor as int, strict, inline_only, k);
        let mut result: Vec<CommentToPrint<'source>> = Vec::new();
        let mut idx: usize = 0;
        while idx < self.comments.len() && self.comments[idx].end <= anchor
            invariant
                forall|k: int| #[trigger] admits(k) == old(self).leading_admits(anchor as int, strict, inline_only, k),
                old(self).wf(),
                anchor <= old(self).layout().bytes.len(),
                self.comments@.len() == old(self).comments@.len(),
                self.source == old(self).source,
                self.line_starts == old(self).line_starts,
                self.misplaced == old(self).misplaced,
                idx <= self.comments@.len(),
                forall|k: int|
                    0 <= k < self.comments@.len() ==> {
                        let c = #[trigger] self.comments@[k];
                        let o = old(self).comments@[k];
                        &&& c.text == o.text
                        &&& c.start == o.start
                        &&& c.end == o.end
                        &&& c.start_line == o.start_line
                        &&& c.end_line == o.end_line
                        &&& c.is_line == o.is_line
                        &&& c.class == o.class
                        &&& c.claimed == if k < idx {
                            o.claimed || admits(k)
                        } else {
                            o.claimed
                        }
                    },
                result@ == old(self).picks(admits, idx as int).map_values(
                    |k: int| old(self).printed(k),
                ),
            decreases self.comments@.len() - idx,
        {
            let comment = self.comments[idx];
            proof {
                assert(old(self).comments@[idx as int] == comment);
                assert(self.layout() =~= old(self).layout()) by {
                    assert(self.layout().starts =~= old(self).layout().starts);
                    assert(self.layout().ends =~= old(self).layout().ends);
                    assert(self.layout().is_line =~= old(self).layout().is_line);
                }
            }
            let class_fits = if inline_only {
                comment.class == CommentClass::InlineLeading
            } else {
                comment.class != CommentClass::Trailing
            };
            let adjacent = if strict {
                self.is_clear(comment.end..anchor, false)
            } else {
                self.leads_exec(&comment, anchor)
            };
            proof {
                assert(old(self).end_at(idx as int) == comment.end);
                assert((class_fits && adjacent) == admits(idx as int));
            }
            if !comment.claimed && class_fits && adjacent {
                let mut updated = comment;
                updated.claimed = true;
                self.comments.set(idx, updated);
                result.push(Self::to_print(&comment));
            }
            proof {
                let p = old(self).picks(admits, idx as int);
                if !comment.claimed && class_fits && adjacent {
                    assert(old(self).picks(admits, idx + 1) == p.push(idx as int));
                } else {
                    assert(old(self).picks(admits, idx + 1) =~= p);
                }
                assert(result@ =~= old(self).picks(admits, idx + 1).map_values(
                    |k: int| old(self).printed(k),
                ));
            }
            idx = idx + 1;
        }
        proof {
            let n = self.comments@.len() as int;
            assert forall|k: int| idx <= k < n implies !#[trigger] admits(k) by {
                if idx < n {
                    let l = old(self).layout();
                    assert(l.ends[idx as int] > anchor);
                    if k > idx {
                        assert(l.starts[idx as int] <= l.ends[idx as int]);
                        assert(l.ends[idx as int] <= l.starts[k]);
                        assert(l.starts[k] <= l.ends[k]);
                    }
                }
            }
            old(self).lemma_picks_stable(admits, idx as int, n);
            assert(self.layout() =~= old(self).layout()) by {
                assert(self.layout().starts =~= old(self).layout().starts);
                assert(self.layout().ends =~= old(self).layout().ends);
                assert(self.layout().is_line =~= old(self).layout().is_line);
            }
        }
        result
    }

    /// Claims the leading comments of the construct starting at `anchor`:
    /// own-line and inline-leading comments adjacent to it.
    pub fn take_leading(&mut self, anchor: usize) -> (taken: Vec<CommentToPrint<'source>>)
        requires
            old(self).wf(),
            anchor <= old(self).layout().bytes.len(),
        ensures
            final(self).kept_from(old(self)),
            final(self).wf(),
            final(self).claimed_from(
                old(self),
                |k: int| old(self).leading_admits(anchor as int, false, false, k),
                taken@,
            ),
    {
        self.take_leading_inner(anchor, false, false)
    }

    /// [`Self::take_leading`] under strict byte adjacency (nothing but
    /// whitespace and comments up to `anchor` itself); for expressions,
    /// which start mid-line and must not pull comments across the code
    /// before them.
    pub fn take_adjacent_leading(&mut self, anchor: usize) -> (taken: Vec<CommentToPrint<'source>>)
        requires
            old(self).wf(),
            anchor <= old(self).layout().bytes.len(),
        ensures
            final(self).kept_from(old(self)),
            final(self).wf(),
            final(self).claimed_from(
                old(self),
                |k: int| old(self).leading_admits(anchor as int, true, false, k),
                taken@,
            ),
    {
        self.take_leading_inner(anchor, true, false)
    }

    /// [`Self::take_adjacent_leading`] restricted to inline-leading
    /// comments; for constructs that must not pull whole-line comments
    /// inward.
    pub fn take_inline_leading(&mut self, anchor: usize) -> (taken: Vec<CommentToPrint<'source>>)
        requires
            old(self).wf(),
            anchor <= old(self).layout().bytes.len(),
        ensures
            final(self).kept_from(old(self)),
            final(self).wf(),
            final(self).claimed_from(
                old(self),
                |k: int| old(self).leading_admits(anchor as int, true, true, k),
                taken@,
            ),
    {
        self.take_leading_inner(anchor, true, true)
    }

    /// Claims the trailing comments of the construct ending at `end` on
    /// `end_line`: comments on that line after it, separated by nothing but
    /// whitespace, separators, and other comments.
    pub fn take_trailing(&mut self, end: usize, end_line: usize) -> (taken: Vec<
        CommentToPrint<'source>,
    >)
        requires
            old(self).wf(),
        ensures
            final(self).kept_from(old(self)),
            final(self).wf(),
            final(self).claimed_from(
                old(self),
                |k: int| old(self).trailing_admits(end as int, end_line as int, k),
                taken@,
            ),
    {
        let ghost admits = |k: int| old(self).trailing_admits(end as int, end_line as int, k);
        let mut result: Vec<CommentToPrint<'source>> = Vec::new();
        let mut idx: usize = 0;
        while idx < self.comments.len()
            invariant
                forall|k: int| #[trigger] admits(k) == old(self).trailing_admits(end as int, end_line as int, k),
                old(self).wf(),
                self.comments@.len() == old(self).comments@.len(),
                self.source == old(self).source,
                self.line_starts == old(self).line_starts,
                self.misplaced == old(self).misplaced,
                idx <= self.comments@.len(),
                forall|k: int|
                    0 <= k < self.comments@.len() ==> {
                        let c = #[trigger] self.comments@[k];
                        let o = old(self).comments@[k];
                        &&& c.text == o.text
                        &&& c.start == o.start
                        &&& c.end == o.end
                        &&& c.start_line == o.start_line
                        &&& c.end_line == o.end_line
                        &&& c.is_line == o.is_line
                        &&& c.class == o.class
                        &&& c.claimed == if k < idx {
                            o.claimed || admits(k)
                        } else {
                            o.claimed
                        }
                    },
                result@ == old(self).picks(admits, idx as int).map_values(
                    |k: int| old(self).printed(k),
                ),
            decreases self.comments@.len() - idx,
        {
            let comment = self.comments[idx];
            proof {
                assert(old(self).comments@[idx as int] == comment);
                assert(old(self).start_at(idx as int) == comment.start);
                assert(self.layout() =~= old(self).layout()) by {
                    assert(self.layout().starts =~= old(self).layout().starts);
                    assert(self.layout().ends =~= old(self).layout().ends);
                    assert(self.layout().is_line =~= old(self).layout().is_line);
                }
            }
            let admitted = comment.class == CommentClass::Trailing && comment.start_line == end_line
                && comment.start >= end && self.is_clear(end..comment.start, true);
            proof {
                assert(admitted == admits(idx as int));
            }
            if !comment.claimed && admitted {
                let mut updated = comment;
                updated.claimed = true;
                self.comments.set(idx, updated);
                result.push(Self::to_print(&comment));
            }
            proof {
                let p = old(self).picks(admits, idx as int);
                if !comment.claimed && admitted {
                    assert(old(self).picks(admits, idx + 1) == p.push(idx as int));
                } else {
                    assert(old(self).picks(admits, idx + 1) =~= p);
                }
                assert(result@ =~= old(self).picks(admits, idx + 1).map_values(
                    |k: int| old(self).printed(k),
                ));
            }
            idx = idx + 1;
        }
        proof {
            assert(self.layout() =~= old(self).layout()) by {
                assert(self.layout().starts =~= old(self).layout().starts);
                assert(self.layout().ends =~= old(self).layout().ends);
                assert(self.layout().is_line =~= old(self).layout().is_line);
            }
        }
        result
    }

    /// Claims comments trailing an opening delimiter at `open`: trailing
    /// comments on its line starting before `upper` (the first element).
    pub fn take_open_trailing(&mut self, open: usize, upper: usize) -> (taken: Vec<
        CommentToPrint<'source>,
    >)
        requires
            old(self).wf(),
        ensures
            final(self).kept_from(old(self)),
            final(self).wf(),
            final(self).claimed_from(
                old(self),
                |k: int| old(self).open_trailing_admits(open as int, upper as int, k),
                taken@,
            ),
    {
        let line = self.line_of(open);
        let taken = self.claim(ClaimRule::OpenTrailing { line, open, upper });
        proof {
            assert((|k: int| rule_admits(old(self), ClaimRule::OpenTrailing { line, open, upper }, k))
                =~= (|k: int| old(self).open_trailing_admits(open as int, upper as int, k)));
        }
        taken
    }

    /// Claims the own-line comments left in `range`; for scope ends, where
    /// no construct follows them.
    pub fn take_between(&mut self, range: Range<usize>) -> (taken: Vec<CommentToPrint<'source>>)
        requires
            old(self).wf(),
        ensures
            final(self).kept_from(old(self)),
            final(self).wf(),
            final(self).claimed_from(
                old(self),
                |k: int| old(self).between_admits(range.start as int, range.end as int, k),
                taken@,
            ),
    {
        let rule = ClaimRule::Between { start: range.start, end: range.end };
        let taken = self.claim(rule);
        proof {
            assert((|k: int| rule_admits(old(self), rule, k)) =~= (|k: int|
                old(self).between_admits(range.start as int, range.end as int, k)));
        }
        taken
    }

    /// Claims every comment inside `range`, whatever its class; for spans
    /// whose source prints verbatim (their text is already in the slice)
    /// and for empty groups, where nothing else can anchor them.
    pub fn take_within(&mut self, range: &Range<usize>) -> (taken: Vec<CommentToPrint<'source>>)
        requires
            old(self).wf(),
        ensures
            final(self).kept_from(old(self)),
            final(self).wf(),
            final(self).claimed_from(
                old(self),
                |k: int| old(self).within_admits(range.start as int, range.end as int, k),
                taken@,
            ),
    {
        let rule = ClaimRule::Within { start: range.start, end: range.end };
        let taken = self.claim(rule);
        proof {
            assert((|k: int| rule_admits(old(self), rule, k)) =~= (|k: int|
                old(self).within_admits(range.start as int, range.end as int, k)));
        }
        taken
    }

    /// Whether `range` holds a comment that rules out any flat layout: a
    /// line comment would swallow the rest of the line, and an own-line or
    /// multi-line comment needs its own line(s).
    pub fn forces_break(&self, range: &Range<usize>) -> (forced: bool)
        requires
            self.wf(),
        ensures
            forced == exists|k: int|
                0 <= k < self.count() && #[trigger] self.breaks(
                    range.start as int,
                    range.end as int,
                    k,
                ),
    {
        let mut idx: usize = 0;
        while idx < self.comments.len()
            invariant
                self.wf(),
                idx <= self.comments@.len(),
                forall|k: int|
                    0 <= k < idx ==> !#[trigger] self.breaks(range.start as int, range.end as int, k),
            decreases self.comments@.len() - idx,
        {
            let comment = self.comments[idx];
            if comment.start >= range.start && comment.start < range.end && (comment.is_line
                || comment.end_line > comment.start_line || comment.class == CommentClass::OwnLine) {
                proof {
                    assert(self.breaks(range.start as int, range.end as int, idx as int));
                }
                return true;
            }
            idx = idx + 1;
        }
        false
    }

    /// Claims everything still unclaimed, for the end of the root.
    /// Unclaimed comments before `boundary` were missed by an interior
    /// claim site and count as misplaced.
    pub fn take_rest(&mut self, boundary: usize) -> (taken: Vec<CommentToPrint<'source>>)
        requires
            old(self).wf(),
            old(self).misplaced_count() + old(self).count() <= usize::MAX,
        ensures
            final(self).wf(),
            final(self).layout() == old(self).layout(),
            final(self).source() == old(self).source(),
            final(self).misplaced_count() == old(self).misplaced_count() + old(self).unclaimed_before(
                boundary as int,
                old(self).count(),
            ),
            final(self).misplaced_count() <= old(self).misplaced_count() + old(self).count(),
            forall|k: int| 0 <= k < final(self).count() ==> #[trigger] final(self).claimed_at(k),
            taken@ == old(self).picks(|k: int| true, old(self).count()).map_values(
                |k: int| old(self).printed(k),
            ),
    {
        let mut count: usize = 0;
        let mut idx: usize = 0;
        while idx < self.comments.len()
            invariant
                self.wf(),
                self == old(self),
                idx <= self.comments@.len(),
                count == self.unclaimed_before(boundary as int, idx as int),
                count <= idx,
            decreases self.comments@.len() - idx,
        {
            let comment = self.comments[idx];
            if !comment.claimed && comment.start < boundary {
                count = count + 1;
            }
            idx = idx + 1;
        }
        self.misplaced = self.misplaced + count;
        let ghost before = *self;
        proof {
            assert(before.layout() =~= old(self).layout());
        }
        let taken = self.claim(ClaimRule::Everything);
        proof {
            assert((|k: int| rule_admits(&before, ClaimRule::Everything, k)) =~= (|k: int| true));
            assert forall|k: int| 0 <= k < old(self).count() implies old(self).printed(k) == before.printed(k) by {
                assert(old(self).comments@[k] == before.comments@[k]);
            }
            assert(old(self).picks(|k: int| true, old(self).count()) == before.picks(|k: int| true, old(self).count())) by {
                old(self).lemma_picks_same(&before, |k: int| true, old(self).count());
            }
            assert(taken@ =~= old(self).picks(|k: int| true, old(self).count()).map_values(
                |k: int| old(self).printed(k)));
        }
        proof {
            old(self).lemma_unclaimed_before_bound(boundary as int, old(self).count());
        }
        taken
    }

    /// Maps with the same claim flags pick the same comments.
    proof fn lemma_picks_same(&self, other: &Self, admits: spec_fn(int) -> bool, n: int)
        requires
            forall|k: int| 0 <= k < n ==> self.claimed_at(k) == other.claimed_at(k),
        ensures
            self.picks(admits, n) == other.picks(admits, n),
        decreases n,
    {
        if n > 0 {
            self.lemma_picks_same(other, admits, n - 1);
        }
    }

    /// Comments [`Self::take_rest`] found behind an interior claim site;
    /// each is a placement bug (the comment still prints, at the end of
    /// the output).
    pub fn misplaced(&self) -> (count: usize)
        ensures
            count == self.misplaced_count(),
    {
        self.misplaced
    }
}


pub(crate) fn comment_triple(comment: &Comment) -> (t: (usize, usize, bool))
    ensures
        t == triple(*comment),
{
    match comment {
        Comment::Line(span) => (span.start, span.end, true),
        Comment::Block(start, end) => (start.start, end.end, false),
    }
}

/// `raw` sorted by start, equal starts kept in their order.
fn sort_by_start(raw: &Vec<(usize, usize, bool)>) -> (sorted: Vec<(usize, usize, bool)>)
    ensures
        sorted_by_start(sorted@),
        sorted@.to_multiset() == raw@.to_multiset(),
{
    broadcast use vstd::seq_lib::group_to_multiset_ensures;

    let mut sorted: Vec<(usize, usize, bool)> = Vec::new();
    let mut i: usize = 0;
    while i < raw.len()
        invariant
            i <= raw@.len(),
            sorted_by_start(sorted@),
            sorted@.to_multiset() == raw@.take(i as int).to_multiset(),
        decreases raw@.len() - i,
    {
        let x = raw[i];
        let mut p = sorted.len();
        while p > 0 && sorted[p - 1].0 > x.0
            invariant
                p <= sorted@.len(),
                sorted_by_start(sorted@),
                forall|k: int| p <= k < sorted@.len() ==> (#[trigger] sorted@[k]).0 > x.0,
            decreases p,
        {
            p = p - 1;
        }
        proof {
            assert forall|k: int| 0 <= k < p implies (#[trigger] sorted@[k]).0 <= x.0 by {
                if k < p - 1 {
                    assert(sorted@[k].0 <= sorted@[p - 1].0);
                }
            }
            vstd::seq_lib::to_multiset_insert(sorted@, p as int, x);
            assert(raw@.take(i + 1) == raw@.take(i as int).push(x));
            vstd::seq_lib::to_multiset_build(raw@.take(i as int), x);
        }
        let ghost before = sorted@;
        sorted.insert(p, x);
        proof {
            assert forall|a: int, b: int| 0 <= a < b < sorted@.len() implies (#[trigger] sorted@[a]).0
                <= (#[trigger] sorted@[b]).0 by {
                if b < p {
                    assert(sorted@[a] == before[a] && sorted@[b] == before[b]);
                } else if b == p {
                    assert(sorted@[a] == before[a]);
                } else if a < p {
                    assert(sorted@[a] == before[a] && sorted@[b] == before[b - 1]);
                } else if a == p {
                    assert(sorted@[b] == before[b - 1]);
                } else {
                    assert(sorted@[a] == before[a - 1] && sorted@[b] == before[b - 1]);
                }
            }
        }
        i = i + 1;
    }
    proof {
        assert(raw@.take(raw@.len() as int) == raw@);
    }
    sorted
}

impl<'source> CommentMap<'source> {
    /// Maps `comments` over `source`: sorted by start, every comment that
    /// starts inside the previous one kept dropped (see [`kept`]), each
    /// with its text, lines and class, none claimed.
    pub fn new(comments: &[Comment], source: &'source str) -> (map: Self)
        requires
            source.spec_bytes().len() < usize::MAX,
            forall|i: int| 0 <= i < comments@.len() ==> triple_ok(source, triple(#[trigger] comments@[i])),
        ensures
            map.wf(),
            map.source() == source,
            map.layout().bytes == source.spec_bytes(),
            map.count() <= usize::MAX,
            map.misplaced_count() == 0,
            comments@.len() == 0 ==> map.count() == 0,
            forall|k: int| 0 <= k < map.count() ==> !#[trigger] map.claimed_at(k),
            exists|s: Seq<(usize, usize, bool)>|
                {
                    &&& sorted_by_start(s)
                    &&& s.to_multiset() == comments@.map_values(|c: Comment| triple(c)).to_multiset()
                    &&& kept(s, s.len() as int).0.len() == map.count()
                    &&& forall|k: int|
                        0 <= k < map.count() ==> {
                            &&& map.start_at(k) == (#[trigger] kept(s, s.len() as int).0[k]).0
                            &&& map.end_at(k) == kept(s, s.len() as int).0[k].1
                            &&& map.is_line_at(k) == kept(s, s.len() as int).0[k].2
                        }
                },
    {
        broadcast use vstd::seq_lib::group_to_multiset_ensures;

        let bytes = source.as_bytes();
        let ghost b = bytes@;
        let mut line_starts: Vec<usize> = Vec::new();
        line_starts.push(0);
        let mut i: usize = 0;
        while i < bytes.len()
            invariant
                bytes@ == b,
                b.len() < usize::MAX,
                i <= b.len(),
                line_starts@ == line_starts_upto(b, i as int),
            decreases b.len() - i,
        {
            if bytes[i] == 10 {
                line_starts.push(i + 1);
            }
            i = i + 1;
        }

        let mut raw: Vec<(usize, usize, bool)> = Vec::new();
        let mut i: usize = 0;
        while i < comments.len()
            invariant
                i <= comments@.len(),
                raw@ == comments@.take(i as int).map_values(|c: Comment| triple(c)),
            decreases comments@.len() - i,
        {
            raw.push(comment_triple(&comments[i]));
            proof {
                assert(comments@.take(i + 1).map_values(|c: Comment| triple(c)) =~= comments@.take(
                    i as int,
                ).map_values(|c: Comment| triple(c)).push(triple(comments@[i as int])));
            }
            i = i + 1;
        }
        proof {
            assert(comments@.take(comments@.len() as int) == comments@);
        }
        let sorted = sort_by_start(&raw);
        proof {
            assert forall|k: int| 0 <= k < sorted@.len() implies triple_ok(source, #[trigger] sorted@[k]) by {
                assert(sorted@.to_multiset().contains(sorted@[k]));
                assert(raw@.to_multiset().contains(sorted@[k]));
                assert(raw@.contains(sorted@[k]));
                let j = choose|j: int| 0 <= j < raw@.len() && raw@[j] == sorted@[k];
                assert(triple_ok(source, triple(comments@[j])));
            }
        }

        let mut kept_spans: Vec<(usize, usize, bool)> = Vec::new();
        let mut covered_end: usize = 0;
        let mut i: usize = 0;
        while i < sorted.len()
            invariant
                i <= sorted@.len(),
                forall|k: int| 0 <= k < sorted@.len() ==> triple_ok(source, #[trigger] sorted@[k]),
                (kept_spans@, covered_end as int) == kept(sorted@, i as int),
                forall|k: int| 0 <= k < kept_spans@.len() ==> triple_ok(source, #[trigger] kept_spans@[k]),
                forall|k: int| 0 <= k < kept_spans@.len() ==> (#[trigger] kept_spans@[k]).1 <= covered_end,
                forall|k: int, l: int|
                    0 <= k < l < kept_spans@.len() ==> (#[trigger] kept_spans@[k]).1 <= (#[trigger] kept_spans@[l]).0,
            decreases sorted@.len() - i,
        {
            let x = sorted[i];
            if x.0 >= covered_end {
                covered_end = x.1;
                kept_spans.push(x);
            }
            i = i + 1;
        }
        let ghost bound = kept_spans@;

        let mut mapped: Vec<MappedComment<'source>> = Vec::new();
        let mut i: usize = 0;
        while i < kept_spans.len()
            invariant
                bytes@ == b,
                b == source.spec_bytes(),
                b.len() < usize::MAX,
                line_starts@ == line_starts_upto(b, b.len() as int),
                i <= kept_spans@.len(),
                kept_spans@ == bound,
                forall|k: int| 0 <= k < bound.len() ==> triple_ok(source, #[trigger] bound[k]),
                mapped@.len() == i,
                forall|k: int|
                    0 <= k < i ==> {
                        let c = #[trigger] mapped@[k];
                        &&& c.start == bound[k].0
                        &&& c.end == bound[k].1
                        &&& c.is_line == bound[k].2
                        &&& c.start_line == line_index(b, c.start as int)
                        &&& c.end_line == line_index(b, c.end as int)
                        &&& c.text.spec_bytes() == b.subrange(c.start as int, c.end as int)
                        &&& !c.claimed
                    },
            decreases bound.len() - i,
        {
            let (start, end, is_line) = kept_spans[i];
            proof {
                assert(triple_ok(source, bound[i as int]));
            }
            let text = slice(source, start, end);
            let start_line = line_in(&line_starts, Ghost(b), start);
            let end_line = line_in(&line_starts, Ghost(b), end);
            mapped.push(
                MappedComment {
                    text,
                    start,
                    end,
                    start_line,
                    end_line,
                    is_line,
                    class: CommentClass::OwnLine,
                    claimed: false,
                },
            );
            i = i + 1;
        }

        let mut map = CommentMap { source, line_starts, comments: mapped, misplaced: 0 };
        let ghost layout = map.layout();
        proof {
            assert(layout.wf()) by {
                assert forall|k: int, l: int|
                    #![trigger layout.ends[k], layout.starts[l]]
                    0 <= k < l < layout.len() implies layout.ends[k] <= layout.starts[l] by {
                    assert(bound[k].1 <= bound[l].0);
                }
                assert forall|k: int|
                    0 <= k < layout.len() implies 0 <= #[trigger] layout.starts[k] <= layout.ends[k]
                    <= layout.bytes.len() by {
                    assert(triple_ok(source, bound[k]));
                }
            }
        }
        let mut k: usize = 0;
        while k < map.comments.len()
            invariant
                map.layout() == layout,
                layout.wf(),
                map.source == source,
                map.misplaced == 0,
                k <= map.comments@.len(),
                forall|j: int|
                    0 <= j < map.comments@.len() ==> {
                        let c = #[trigger] map.comments@[j];
                        &&& c.start_line == layout.line_of(c.start as int)
                        &&& c.end_line == layout.line_of(c.end as int)
                        &&& c.text.spec_bytes() == layout.bytes.subrange(c.start as int, c.end as int)
                        &&& !c.claimed
                        &&& j < k ==> c.class == layout.class_of(c.start as int, c.end as int, c.is_line)
                    },
            decreases map.comments@.len() - k,
        {
            let comment = map.comments[k];
            proof {
                assert(layout.starts[k as int] == comment.start);
            }
            let class = map.classify(&comment);
            let mut updated = comment;
            updated.class = class;
            map.comments.set(k, updated);
            proof {
                assert(map.layout().starts =~= layout.starts);
                assert(map.layout().ends =~= layout.ends);
                assert(map.layout().is_line =~= layout.is_line);
            }
            k = k + 1;
        }
        proof {
            let s = sorted@;
            assert(kept(s, s.len() as int).0 == bound);
            assert(raw@ == comments@.map_values(|c: Comment| triple(c)));
            if comments@.len() == 0 {
                assert(raw@.len() == 0);
                assert(s.to_multiset().len() == raw@.to_multiset().len());
                assert(s.len() == 0);
                assert(bound.len() == 0);
            }
        }
        map
    }
}


impl<'source> CommentMap<'source> {
    /// A claim picks exactly the unclaimed comments its rule admits.
    pub proof fn lemma_picked(&self, admits: spec_fn(int) -> bool, n: int, k: int)
        ensures
            self.picks(admits, n).contains(k) <==> (0 <= k < n && !self.claimed_at(k) && admits(k)),
        decreases n,
    {
        if n > 0 {
            self.lemma_picked(admits, n - 1, k);
            let p = self.picks(admits, n - 1);
            if !self.claimed_at(n - 1) && admits(n - 1) {
                let q = p.push(n - 1);
                assert(self.picks(admits, n) == q);
                if q.contains(k) {
                    let i = choose|i: int| 0 <= i < q.len() && #[trigger] q[i] == k;
                    if i < p.len() {
                        assert(p[i] == k);
                        assert(p.contains(k));
                    }
                }
                if 0 <= k < n && !self.claimed_at(k) && admits(k) {
                    if k == n - 1 {
                        assert(q[p.len() as int] == k);
                    } else {
                        assert(p.contains(k));
                        let i = choose|i: int| 0 <= i < p.len() && #[trigger] p[i] == k;
                        assert(q[i] == k);
                    }
                }
            } else {
                assert(self.picks(admits, n) =~= p);
            }
        }
    }

    /// Each comment is handed to at most one claim site: what one claim
    /// takes, no later claim takes again.
    pub proof fn law_claims_are_exclusive(
        m0: &Self,
        m1: &Self,
        m2: &Self,
        first: spec_fn(int) -> bool,
        second: spec_fn(int) -> bool,
        t1: Seq<CommentToPrint<'source>>,
        t2: Seq<CommentToPrint<'source>>,
        k: int,
    )
        requires
            m1.claimed_from(m0, first, t1),
            m2.claimed_from(m1, second, t2),
        ensures
            !(m0.picks(first, m0.count()).contains(k) && m1.picks(second, m1.count()).contains(k)),
    {
        m0.lemma_picked(first, m0.count(), k);
        m1.lemma_picked(second, m1.count(), k);
    }

    /// Comments are never lost: the final claim of [`Self::take_rest`]
    /// hands out every comment no earlier claim took.
    pub proof fn law_rest_takes_every_unclaimed(&self, k: int)
        requires
            0 <= k < self.count(),
        ensures
            self.claimed_at(k) || self.picks(|j: int| true, self.count()).contains(k),
    {
        self.lemma_picked(|j: int| true, self.count(), k);
    }
}


/// A run of claims: each map of `maps` after the first results from the
/// one before it by the claim `rules[t]`, which hands out `takens[t]`.
pub open spec fn claim_run<'s>(
    maps: Seq<CommentMap<'s>>,
    rules: Seq<spec_fn(int) -> bool>,
    takens: Seq<Seq<CommentToPrint<'s>>>,
) -> bool {
    &&& maps.len() == rules.len() + 1
    &&& takens.len() == rules.len()
    &&& forall|t: int|
        #![trigger rules[t]]
        0 <= t < rules.len() ==> maps[t + 1].claimed_from(&maps[t], rules[t], takens[t])
}

/// Along a run of claims the comments stay the same and a claimed comment
/// stays claimed.
proof fn lemma_claim_run_monotone<'s>(
    maps: Seq<CommentMap<'s>>,
    rules: Seq<spec_fn(int) -> bool>,
    takens: Seq<Seq<CommentToPrint<'s>>>,
    t: int,
    u: int,
    k: int,
)
    requires
        claim_run(maps, rules, takens),
        0 <= t <= u < maps.len(),
    ensures
        maps[u].count() == maps[t].count(),
        0 <= k < maps[t].count() && maps[t].claimed_at(k) ==> maps[u].claimed_at(k),
    decreases u - t,
{
    if t < u {
        let r = rules[u - 1];
        assert(maps[u].claimed_from(&maps[u - 1], rules[u - 1], takens[u - 1]));
        lemma_claim_run_monotone(maps, rules, takens, t, u - 1, k);
    }
}

/// Over any run of claims that starts with nothing claimed, each comment
/// is handed out by at most one claim, and a comment claimed at the end
/// was handed out by exactly one. ([`CommentMap::take_rest`] claims every
/// comment left, so after it every comment was handed out exactly once.)
pub proof fn law_claim_run_hands_out_each_comment_once<'s>(
    maps: Seq<CommentMap<'s>>,
    rules: Seq<spec_fn(int) -> bool>,
    takens: Seq<Seq<CommentToPrint<'s>>>,
    k: int,
)
    requires
        claim_run(maps, rules, takens),
        0 <= k < maps[0].count(),
        !maps[0].claimed_at(k),
    ensures
        forall|t: int, u: int|
            0 <= t < u < rules.len() ==> !(#[trigger] maps[t].picks(rules[t], maps[t].count()).contains(k)
                && #[trigger] maps[u].picks(rules[u], maps[u].count()).contains(k)),
        maps[rules.len() as int].claimed_at(k) ==> exists|t: int|
            0 <= t < rules.len() && #[trigger] maps[t].picks(rules[t], maps[t].count()).contains(k),
{
    assert forall|t: int, u: int|
        0 <= t < u < rules.len() implies !(#[trigger] maps[t].picks(rules[t], maps[t].count()).contains(k)
        && #[trigger] maps[u].picks(rules[u], maps[u].count()).contains(k)) by {
        lemma_claim_run_monotone(maps, rules, takens, 0, t, k);
        lemma_claim_run_monotone(maps, rules, takens, 0, u, k);
        maps[t].lemma_picked(rules[t], maps[t].count(), k);
        maps[u].lemma_picked(rules[u], maps[u].count(), k);
        if maps[t].picks(rules[t], maps[t].count()).contains(k) {
            assert(maps[t + 1].claimed_from(&maps[t], rules[t], takens[t]));
            lemma_claim_run_monotone(maps, rules, takens, 0, t + 1, k);
            lemma_claim_run_monotone(maps, rules, takens, t + 1, u, k);
        }
    }
    if maps[rules.len() as int].claimed_at(k) {
        lemma_first_claim(maps, rules, takens, k, rules.len() as int);
    }
}

/// A comment unclaimed at first and claimed after `n` claims was handed
/// out by one of them.
proof fn lemma_first_claim<'s>(
    maps: Seq<CommentMap<'s>>,
    rules: Seq<spec_fn(int) -> bool>,
    takens: Seq<Seq<CommentToPrint<'s>>>,
    k: int,
    n: int,
)
    requires
        claim_run(maps, rules, takens),
        0 <= k < maps[0].count(),
        !maps[0].claimed_at(k),
        0 <= n <= rules.len(),
        maps[n].claimed_at(k),
    ensures
        exists|t: int| 0 <= t < rules.len() && #[trigger] maps[t].picks(rules[t], maps[t].count()).contains(k),
    decreases n,
{
    if n > 0 {
        lemma_claim_run_monotone(maps, rules, takens, 0, n - 1, k);
        lemma_claim_run_monotone(maps, rules, takens, 0, n, k);
        if maps[n - 1].claimed_at(k) {
            lemma_first_claim(maps, rules, takens, k, n - 1);
        } else {
            let t = n - 1;
            assert(maps[t + 1].claimed_from(&maps[t], rules[t], takens[t]));
            maps[t].lemma_picked(rules[t], maps[t].count(), k);
            assert(maps[t].picks(rules[t], maps[t].count()).contains(k));
        }
    }
}

impl<'source> CommentMap<'source> {
    /// `self` is `before` after any number of claims: same source and
    /// comments, and every comment claimed before still claimed.
    pub closed spec fn kept_from(&self, before: &Self) -> bool {
        &&& self.wf()
        &&& self.same_layout(before)
        &&& forall|k: int| 0 <= k < self.count() && #[trigger] before.claimed_at(k) ==> self.claimed_at(k)
    }

    /// A well-formed map has a well-formed layout.
    pub proof fn lemma_wf_layout(&self)
        requires
            self.wf(),
        ensures
            self.layout().wf(),
    {
    }

    /// What a well-formed map records of its comment `k`, and what a claim
    /// hands out for it: its text is its slice of the source, its lines are
    /// those of its ends, its class follows from its place in the source,
    /// and it prints inline exactly when it is inline-leading.
    pub proof fn lemma_comment_fields(&self, k: int)
        requires
            self.wf(),
            0 <= k < self.count(),
        ensures
            self.printed(k).text.spec_bytes() == self.layout().bytes.subrange(
                self.start_at(k),
                self.end_at(k),
            ),
            self.printed(k).start_line == self.layout().line_of(self.start_at(k)),
            self.printed(k).end_line == self.layout().line_of(self.end_at(k)),
            self.printed(k).end == self.end_at(k),
            self.printed(k).is_line == self.is_line_at(k),
            self.printed(k).inline == (self.class_at(k) == CommentClass::InlineLeading),
            self.start_line_at(k) == self.printed(k).start_line,
            self.end_line_at(k) == self.printed(k).end_line,
            self.class_at(k) == self.layout().class_of(
                self.start_at(k),
                self.end_at(k),
                self.is_line_at(k),
            ),
    {
        let c = self.comments@[k];
        assert(self.layout().starts[k] == c.start as int);
        assert(self.layout().ends[k] == c.end as int);
        assert(self.layout().is_line[k] == c.is_line);
    }

    /// No more comments are ever counted as misplaced than there are
    /// comments left unclaimed.
    pub proof fn lemma_unclaimed_before_bound(&self, boundary: int, n: int)
        requires
            n >= 0,
        ensures
            0 <= self.unclaimed_before(boundary, n) <= n,
        decreases n,
    {
        if n > 0 {
            self.lemma_unclaimed_before_bound(boundary, n - 1);
        }
    }

}


/// Keeping is transitive: claims after claims keep the map.
pub broadcast proof fn lemma_kept_trans<'s>(a: &CommentMap<'s>, b: &CommentMap<'s>, c: &CommentMap<'s>)
    requires
        #[trigger] c.kept_from(b),
        #[trigger] b.kept_from(a),
    ensures
        c.kept_from(a),
{
}

/// A kept map is well formed and has the layout it was kept from.
pub broadcast proof fn lemma_kept_layout<'s>(a: &CommentMap<'s>, b: &CommentMap<'s>)
    requires
        #[trigger] b.kept_from(a),
    ensures
        b.wf(),
        b.layout() == a.layout(),
        b.source() == a.source(),
        b.misplaced_count() == a.misplaced_count(),
{
}

/// A well-formed map is kept from itself.
pub broadcast proof fn lemma_kept_refl<'s>(a: &CommentMap<'s>)
    requires
        a.wf(),
    ensures
        #[trigger] a.kept_from(a),
{
}

pub broadcast group group_kept {
    lemma_kept_trans,
    lemma_kept_layout,
    lemma_kept_refl,
}

} // verus!
