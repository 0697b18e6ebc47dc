use std::ops::Range;
use vstd::prelude::*;
use vstd::string::StringSliceAdditionalSpecFns;

use crate::ast::{
    ArgumentList, ArgumentPattern, ArrayElement, Attribute, AttributeList,
    BinaryOperator, BitLiteral, Block, CallKind, EnumVariant, Expression, Identifier, ImplBlock,
    Inequality, Item, Loc, MatchArm, Module, ModuleBody, NamedArgument, NamedPatternArgument,
    NamedTurbofish, Parameter, ParameterList, Path, PathSegment, Pattern, PipelineStageReference, Register,
    Span, Statement, TraitDef, TraitSpec, TurbofishInner, TypeDeclKind, TypeDeclaration,
    TypeExpression, TypeParam, TypeSpec, UnaryOperator, Unit, UnitHead, UnitKind, UseStatement,
    VerilogAttr, Visibility, WhereClause,
};
use crate::buildable::{
    argument_list_ok, argument_pattern_ok, array_elements_ok, block_ok, call_kind_ok,
    assoc_types_ok, enum_variants_ok, expression_ok, expressions_ok, gen_if_ok, item_ok, items_ok,
    match_arms_ok, statements_ok, type_declarations_ok, unit_heads_ok, units_ok,
    module_body_ok, named_arguments_ok, named_pattern_arguments_ok, named_turbofish_ok,
    optional_type_params_ok, parameter_list_ok, parameters_ok, pattern_ok, patterns_ok,
    statement_ok, trait_spec_ok, trait_specs_ok, type_declaration_ok, type_expression_ok,
    type_expressions_ok, type_param_ok, type_params_ok, type_spec_ok, turbofish_ok, unit_head_ok,
    unit_kind_ok,
    unit_ok, use_ok, visibility_ok, where_clauses_ok,
};
use crate::comment_insertion::{CommentLayout, CommentMap, CommentToPrint};
use crate::document::{
    children_below, Document, DocumentIdx, DocumentView, InternedDocumentStore,
};

verus! {

broadcast use crate::comment_insertion::group_kept;

/// Why a source file could not be turned into a document.
#[derive(Debug)]
pub enum BuildDiagnostic {
    /// A construct the builder cannot format yet, at `span`.
    Unsupported { span: Span, construct: &'static str },
    /// The diagnostic the parser embedded in an incomplete expression.
    Embedded(usize),
    /// A span that does not lie on character boundaries inside the source.
    InvalidSpan(Span),
}

/// Turns a parsed module into a layout document, placing the source's
/// comments as it goes.
pub struct DocumentBuilder<'code> {
    indent: isize,
    source: &'code str,
    diagnostics: Vec<BuildDiagnostic>,
    inner: InternedDocumentStore,
}

/// Whether `start..end` of `source` can be cut out as text.
pub open spec fn sliceable(source: &str, start: int, end: int) -> bool {
    crate::comment_insertion::sliceable(source, start, end)
}

/// `source[start..end]`, or [`None`] when that is not a slice of it.
pub fn checked_slice<'a>(source: &'a str, start: usize, end: usize) -> (text: Option<&'a str>)
    requires
        source.spec_bytes().len() <= usize::MAX,
    ensures
        text is Some <==> sliceable(source, start as int, end as int),
        text matches Some(t) ==> t.spec_bytes() == source.spec_bytes().subrange(
            start as int,
            end as int,
        ),
{
    if start > end || end > source.len() {
        return None;
    }
    if !source.is_char_boundary(end) {
        return None;
    }
    let (head, _) = source.split_at(end);
    proof {
        assert(head.spec_bytes() == source.spec_bytes().subrange(0, end as int));
    }
    if !head.is_char_boundary(start) {
        return None;
    }
    let (_, text) = head.split_at(start);
    proof {
        assert(text.spec_bytes() =~= source.spec_bytes().subrange(start as int, end as int));
    }
    Some(text)
}

/// `a` followed by `b`.
pub fn concat(a: &str, b: &str) -> (s: String)
    ensures
        s@ == a@ + b@,
{
    let mut s = String::new();
    s.append(a);
    s.append(b);
    proof {
        assert(s@ =~= a@ + b@);
    }
    s
}

/// Source spelling per the lexer's token table.
pub fn binary_operator_str(op: &BinaryOperator) -> (text: &'static str)
    ensures
        text@ == match op {
            BinaryOperator::Add => "+"@,
            BinaryOperator::Sub => "-"@,
            BinaryOperator::Mul => "*"@,
            BinaryOperator::Div => "/"@,
            BinaryOperator::Mod => "%"@,
            BinaryOperator::Eq => "=="@,
            BinaryOperator::Neq => "!="@,
            BinaryOperator::Lt => "<"@,
            BinaryOperator::Gt => ">"@,
            BinaryOperator::Le => "<="@,
            BinaryOperator::Ge => ">="@,
            BinaryOperator::LogicalAnd => "&&"@,
            BinaryOperator::LogicalOr => "||"@,
            BinaryOperator::LogicalXor => "^^"@,
            BinaryOperator::LeftShift => "<<"@,
            BinaryOperator::RightShift => ">>"@,
            BinaryOperator::ArithmeticRightShift => ">>>"@,
            BinaryOperator::BitwiseAnd => "&"@,
            BinaryOperator::BitwiseOr => "|"@,
            BinaryOperator::BitwiseXor => "^"@,
            BinaryOperator::WrappingAdd => "+."@,
            BinaryOperator::WrappingSub => "-."@,
            BinaryOperator::WrappingMul => "*."@,
            BinaryOperator::WrappingLeftShift => "<<."@,
            BinaryOperator::WrappingRightShift => ">>."@,
        },
{
    match op {
        BinaryOperator::Add => "+",
        BinaryOperator::Sub => "-",
        BinaryOperator::Mul => "*",
        BinaryOperator::Div => "/",
        BinaryOperator::Mod => "%",
        BinaryOperator::Eq => "==",
        BinaryOperator::Neq => "!=",
        BinaryOperator::Lt => "<",
        BinaryOperator::Gt => ">",
        BinaryOperator::Le => "<=",
        BinaryOperator::Ge => ">=",
        BinaryOperator::LogicalAnd => "&&",
        BinaryOperator::LogicalOr => "||",
        BinaryOperator::LogicalXor => "^^",
        BinaryOperator::LeftShift => "<<",
        BinaryOperator::RightShift => ">>",
        BinaryOperator::ArithmeticRightShift => ">>>",
        BinaryOperator::BitwiseAnd => "&",
        BinaryOperator::BitwiseOr => "|",
        BinaryOperator::BitwiseXor => "^",
        BinaryOperator::WrappingAdd => "+.",
        BinaryOperator::WrappingSub => "-.",
        BinaryOperator::WrappingMul => "*.",
        BinaryOperator::WrappingLeftShift => "<<.",
        BinaryOperator::WrappingRightShift => ">>.",
    }
}

/// See [`binary_operator_str`].
pub fn unary_operator_str(op: &UnaryOperator) -> (text: &'static str)
    ensures
        text@ == match op {
            UnaryOperator::Sub => "-"@,
            UnaryOperator::Not => "!"@,
            UnaryOperator::BitwiseNot => "~"@,
            UnaryOperator::WrappingSub => "-."@,
            UnaryOperator::Dereference => "*"@,
            UnaryOperator::Reference => "&"@,
        },
{
    match op {
        UnaryOperator::Sub => "-",
        UnaryOperator::Not => "!",
        UnaryOperator::BitwiseNot => "~",
        UnaryOperator::WrappingSub => "-.",
        UnaryOperator::Dereference => "*",
        UnaryOperator::Reference => "&",
    }
}


/// `s` cut at its line feeds, as `str::split('\n')` does.
pub open spec fn split_lines(s: Seq<char>) -> Seq<Seq<char>>
    decreases s.len(),
{
    if s.len() == 0 {
        seq![Seq::empty()]
    } else {
        let lines = split_lines(s.drop_last());
        if s.last() == '\n' {
            lines.push(Seq::empty())
        } else {
            lines.update(lines.len() - 1, lines.last().push(s.last()))
        }
    }
}

pub proof fn lemma_split_lines_nonempty(s: Seq<char>)
    ensures
        split_lines(s).len() >= 1,
    decreases s.len(),
{
    if s.len() > 0 {
        lemma_split_lines_nonempty(s.drop_last());
    }
}

/// The spaces a line starts with.
pub open spec fn leading_spaces(line: Seq<char>) -> int
    decreases line.len(),
{
    if line.len() == 0 || line[0] != ' ' {
        0
    } else {
        1 + leading_spaces(line.drop_first())
    }
}

/// Whether a line holds only whitespace (`str::trim` leaves nothing).
pub open spec fn is_blank_line(line: Seq<char>) -> bool {
    forall|i: int| 0 <= i < line.len() ==> crate::format::is_whitespace(#[trigger] line[i])
}

/// The fewest leading spaces among the non-blank lines of `lines`, or
/// [`None`] if all are blank.
pub open spec fn min_indent(lines: Seq<Seq<char>>) -> Option<int>
    decreases lines.len(),
{
    if lines.len() == 0 {
        None
    } else {
        let rest = min_indent(lines.drop_last());
        if is_blank_line(lines.last()) {
            rest
        } else {
            match rest {
                None => Some(leading_spaces(lines.last())),
                Some(m) => Some(if leading_spaces(lines.last()) < m {
                    leading_spaces(lines.last())
                } else {
                    m
                }),
            }
        }
    }
}

/// Each of `lines` after a line feed, with up to `dedent` of its leading
/// spaces removed.
pub open spec fn join_dedented(lines: Seq<Seq<char>>, dedent: int) -> Seq<char>
    decreases lines.len(),
{
    if lines.len() == 0 {
        Seq::empty()
    } else {
        let line = lines.last();
        let cut = if dedent < leading_spaces(line) {
            dedent
        } else {
            leading_spaces(line)
        };
        join_dedented(lines.drop_last(), dedent) + seq!['\n'] + line.skip(cut)
    }
}

/// A multi-line slice with its interior lines dedented by their common
/// leading spaces; the first line is kept as is.
pub open spec fn dedented(s: Seq<char>) -> Seq<char> {
    let lines = split_lines(s);
    if lines.len() <= 1 {
        s
    } else {
        let rest = lines.drop_first();
        let dedent = match min_indent(rest) {
            Some(m) => m,
            None => 0,
        };
        lines[0] + join_dedented(rest, dedent)
    }
}

/// Whether `s` holds no line feed.
pub open spec fn no_newline(s: Seq<char>) -> bool {
    forall|i: int| 0 <= i < s.len() ==> s[i] != '\n'
}

/// Text without a line feed extends the last line.
proof fn lemma_split_lines_extend(p: Seq<char>, y: Seq<char>)
    requires
        no_newline(y),
    ensures
        split_lines(p + y) == split_lines(p).update(
            split_lines(p).len() - 1,
            split_lines(p).last() + y,
        ),
    decreases y.len(),
{
    lemma_split_lines_nonempty(p);
    if y.len() == 0 {
        assert(p + y =~= p);
        assert(split_lines(p).last() + y =~= split_lines(p).last());
        assert(split_lines(p).update(split_lines(p).len() - 1, split_lines(p).last())
            =~= split_lines(p));
    } else {
        let y0 = y.drop_last();
        assert(y0.len() < y.len());
        assert forall|i: int| 0 <= i < y0.len() implies y0[i] != '\n' by {
            assert(y0[i] == y[i]);
        }
        lemma_split_lines_extend(p, y0);
        assert((p + y).drop_last() =~= p + y0);
        assert((p + y).last() == y.last());
        assert(y.last() != '\n');
        let l = split_lines(p);
        assert((l.last() + y0).push(y.last()) =~= l.last() + y);
        assert(split_lines(p + y) =~= l.update(l.len() - 1, l.last() + y));
    }
}

/// Every line `split_lines` gives is free of line feeds.
proof fn lemma_split_lines_no_newline(s: Seq<char>)
    ensures
        forall|k: int| 0 <= k < split_lines(s).len() ==> no_newline(#[trigger] split_lines(s)[k]),
    decreases s.len(),
{
    if s.len() > 0 {
        lemma_split_lines_no_newline(s.drop_last());
        lemma_split_lines_nonempty(s.drop_last());
        let l = split_lines(s.drop_last());
        if s.last() != '\n' {
            assert forall|k: int| 0 <= k < split_lines(s).len() implies no_newline(
                #[trigger] split_lines(s)[k],
            ) by {
                if k == l.len() - 1 {
                    let line = l.last().push(s.last());
                    assert(split_lines(s)[k] == line);
                    assert forall|i: int| 0 <= i < line.len() implies line[i] != '\n' by {
                        if i < l.last().len() {
                            assert(no_newline(l[l.len() - 1]));
                        }
                    }
                } else {
                    assert(split_lines(s)[k] == l[k]);
                }
            }
        } else {
            assert forall|k: int| 0 <= k < split_lines(s).len() implies no_newline(
                #[trigger] split_lines(s)[k],
            ) by {
                if k < l.len() {
                    assert(split_lines(s)[k] == l[k]);
                }
            }
        }
    }
}

/// How many leading spaces a line with at most `dedent` of them removed
/// loses.
pub open spec fn cut_of(line: Seq<char>, dedent: int) -> int {
    if dedent < leading_spaces(line) {
        dedent
    } else {
        leading_spaces(line)
    }
}

/// The lines of `lines` each with at most `dedent` leading spaces removed.
pub open spec fn cut_lines(lines: Seq<Seq<char>>, dedent: int) -> Seq<Seq<char>> {
    Seq::new(lines.len(), |i: int| lines[i].skip(cut_of(lines[i], dedent)))
}

/// Splitting a first line followed by dedented lines gives back those
/// lines.
proof fn lemma_split_join(first: Seq<char>, rest: Seq<Seq<char>>, dedent: int)
    requires
        no_newline(first),
        forall|k: int| 0 <= k < rest.len() ==> no_newline(#[trigger] rest[k]),
        0 <= dedent,
    ensures
        split_lines(first + join_dedented(rest, dedent)) == seq![first] + cut_lines(rest, dedent),
    decreases rest.len(),
{
    if rest.len() == 0 {
        assert(first + join_dedented(rest, dedent) =~= Seq::<char>::empty() + first);
        lemma_split_lines_extend(Seq::<char>::empty(), first);
        assert(split_lines(Seq::<char>::empty()) == seq![Seq::<char>::empty()]);
        assert(seq![Seq::<char>::empty()].update(0, Seq::<char>::empty() + first) =~= seq![first]);
        assert(cut_lines(rest, dedent) =~= Seq::<Seq<char>>::empty());
        assert(seq![first] + cut_lines(rest, dedent) =~= seq![first]);
    } else {
        let init = rest.drop_last();
        assert forall|k: int| 0 <= k < init.len() implies no_newline(#[trigger] init[k]) by {
            assert(init[k] == rest[k]);
        }
        lemma_split_join(first, init, dedent);
        let line = rest.last();
        let cut = cut_of(line, dedent);
        lemma_leading_bound(line);
        let tail = line.skip(cut);
        assert(no_newline(rest[rest.len() - 1]));
        assert forall|i: int| 0 <= i < tail.len() implies tail[i] != '\n' by {
            assert(tail[i] == line[i + cut]);
        }
        let p = first + join_dedented(init, dedent) + seq!['\n'];
        assert(first + join_dedented(rest, dedent) =~= p + tail);
        lemma_split_lines_extend(p, tail);
        let q = first + join_dedented(init, dedent);
        assert(p.drop_last() =~= q);
        assert(split_lines(p) == split_lines(q).push(Seq::<char>::empty()));
        assert(Seq::<char>::empty() + tail =~= tail);
        assert(cut_lines(rest, dedent) =~= cut_lines(init, dedent).push(tail));
        assert(split_lines(first + join_dedented(rest, dedent)) =~= seq![first] + cut_lines(rest, dedent));
    }
}

/// The leading spaces of a line after removing `k` of them.
proof fn lemma_leading_skip(line: Seq<char>, k: int)
    requires
        0 <= k <= leading_spaces(line),
    ensures
        leading_spaces(line.skip(k)) == leading_spaces(line) - k,
        forall|i: int| 0 <= i < k ==> line[i] == ' ',
    decreases k,
{
    lemma_leading_bound(line);
    if k > 0 {
        assert(line.len() > 0 && line[0] == ' ');
        lemma_leading_skip(line.drop_first(), k - 1);
        assert(line.drop_first().skip(k - 1) =~= line.skip(k));
        assert forall|i: int| 0 <= i < k implies line[i] == ' ' by {
            if i > 0 {
                assert(line[i] == line.drop_first()[i - 1]);
            }
        }
    } else {
        assert(line.skip(0) =~= line);
    }
}

/// Removing leading spaces keeps a line blank or not blank.
proof fn lemma_blank_skip(line: Seq<char>, k: int)
    requires
        0 <= k <= leading_spaces(line),
    ensures
        is_blank_line(line.skip(k)) == is_blank_line(line),
{
    lemma_leading_skip(line, k);
    lemma_leading_bound(line);
    if is_blank_line(line.skip(k)) {
        assert forall|i: int| 0 <= i < line.len() implies crate::format::is_whitespace(#[trigger] line[i]) by {
            if i < k {
                assert(line[i] == ' ');
            } else {
                assert(line[i] == line.skip(k)[i - k]);
            }
        }
    }
    if is_blank_line(line) {
        assert forall|i: int| 0 <= i < line.skip(k).len() implies crate::format::is_whitespace(
            #[trigger] line.skip(k)[i],
        ) by {
            assert(line.skip(k)[i] == line[i + k]);
        }
    }
}

proof fn lemma_leading_bound(line: Seq<char>)
    ensures
        0 <= leading_spaces(line) <= line.len(),
    decreases line.len(),
{
    if line.len() > 0 && line[0] == ' ' {
        lemma_leading_bound(line.drop_first());
    }
}

/// The common indent of nonblank lines, below which every nonblank line
/// reaches.
proof fn lemma_min_indent_bound(lines: Seq<Seq<char>>, k: int)
    requires
        0 <= k < lines.len(),
        !is_blank_line(lines[k]),
    ensures
        min_indent(lines) matches Some(m) && m <= leading_spaces(lines[k]),
    decreases lines.len(),
{
    if k < lines.len() - 1 {
        lemma_min_indent_bound(lines.drop_last(), k);
        assert(lines.drop_last()[k] == lines[k]);
    }
}

/// Cutting `d` from lines whose nonblank ones have at least `d` leading
/// spaces lowers the common indent by `d`.
proof fn lemma_min_indent_cut(lines: Seq<Seq<char>>, d: int)
    requires
        0 <= d,
        forall|k: int| 0 <= k < lines.len() && !is_blank_line(#[trigger] lines[k]) ==> d <= leading_spaces(lines[k]),
    ensures
        min_indent(cut_lines(lines, d)) == match min_indent(lines) {
            Some(m) => Some(m - d),
            None => None,
        },
    decreases lines.len(),
{
    if lines.len() > 0 {
        let init = lines.drop_last();
        assert forall|k: int| 0 <= k < init.len() && !is_blank_line(#[trigger] init[k]) implies d <= leading_spaces(init[k]) by {
            assert(init[k] == lines[k]);
        }
        lemma_min_indent_cut(init, d);
        let line = lines.last();
        lemma_leading_bound(line);
        let c = cut_of(line, d);
        lemma_blank_skip(line, c);
        assert(cut_lines(lines, d).drop_last() =~= cut_lines(init, d));
        assert(cut_lines(lines, d).last() == line.skip(c));
        if !is_blank_line(line) {
            assert(!is_blank_line(lines[lines.len() - 1]));
            lemma_leading_skip(line, c);
        }
    }
}

/// Lines cut by `d` and joined uncut are the lines joined cut by `d`.
proof fn lemma_join_cut(lines: Seq<Seq<char>>, d: int)
    requires
        0 <= d,
    ensures
        join_dedented(cut_lines(lines, d), 0) == join_dedented(lines, d),
    decreases lines.len(),
{
    if lines.len() > 0 {
        let init = lines.drop_last();
        lemma_join_cut(init, d);
        assert(cut_lines(lines, d).drop_last() =~= cut_lines(init, d));
        let cut_line = cut_lines(lines, d).last();
        lemma_leading_bound(cut_line);
        assert(cut_line.skip(0) =~= cut_line);
    }
}

/// Dedenting a slice twice dedents it once: after the first, the common
/// indent of its interior lines is gone.
pub proof fn law_dedented_is_idempotent(s: Seq<char>)
    ensures
        dedented(dedented(s)) == dedented(s),
{
    let lines = split_lines(s);
    lemma_split_lines_nonempty(s);
    if lines.len() > 1 {
        lemma_split_lines_no_newline(s);
        let first = lines[0];
        let rest = lines.drop_first();
        let d = match min_indent(rest) {
            Some(m) => m,
            None => 0,
        };
        assert(no_newline(lines[0]));
        assert forall|k: int| 0 <= k < rest.len() implies no_newline(#[trigger] rest[k]) by {
            assert(rest[k] == lines[k + 1]);
        }
        assert forall|k: int| 0 <= k < rest.len() && !is_blank_line(#[trigger] rest[k]) implies d <= leading_spaces(rest[k]) by {
            lemma_min_indent_bound(rest, k);
        }
        lemma_min_indent_nonneg(rest);
        lemma_split_join(first, rest, d);
        let once = dedented(s);
        assert(once == first + join_dedented(rest, d));
        let lines2 = split_lines(once);
        assert(lines2 == seq![first] + cut_lines(rest, d));
        assert(lines2.len() > 1);
        assert(lines2[0] == first);
        assert(lines2.drop_first() =~= cut_lines(rest, d));
        lemma_min_indent_cut(rest, d);
        let d2 = match min_indent(cut_lines(rest, d)) {
            Some(m) => m,
            None => 0,
        };
        assert(d2 == 0);
        lemma_join_cut(rest, d);
    }
}

/// The common indent is never negative.
proof fn lemma_min_indent_nonneg(lines: Seq<Seq<char>>)
    ensures
        min_indent(lines) matches Some(m) ==> 0 <= m,
    decreases lines.len(),
{
    if lines.len() > 0 {
        lemma_min_indent_nonneg(lines.drop_last());
        lemma_leading_bound(lines.last());
    }
}

proof fn lemma_split_lines_one(s: Seq<char>)
    requires
        split_lines(s).len() == 1,
    ensures
        split_lines(s)[0] == s,
    decreases s.len(),
{
    lemma_split_lines_nonempty(s);
    if s.len() > 0 {
        let l = split_lines(s.drop_last());
        lemma_split_lines_nonempty(s.drop_last());
        if s.last() == '\n' {
        } else {
            lemma_split_lines_one(s.drop_last());
            assert(s.drop_last().push(s.last()) == s);
        }
    }
}

fn leading_spaces_of(line: &Vec<char>) -> (n: usize)
    ensures
        n == leading_spaces(line@),
        n <= line@.len(),
{
    let mut n: usize = 0;
    proof {
        assert(line@.skip(0) =~= line@);
    }
    while n < line.len() && line[n] == ' '
        invariant
            n <= line@.len(),
            forall|i: int| 0 <= i < n ==> line@[i] == ' ',
            leading_spaces(line@) == n + leading_spaces(line@.skip(n as int)),
        decreases line@.len() - n,
    {
        proof {
            assert(line@.skip(n as int).drop_first() =~= line@.skip(n + 1));
        }
        n = n + 1;
    }
    n
}

fn is_blank(line: &Vec<char>) -> (blank: bool)
    ensures
        blank == is_blank_line(line@),
{
    let mut i: usize = 0;
    while i < line.len()
        invariant
            i <= line@.len(),
            forall|k: int| 0 <= k < i ==> crate::format::is_whitespace(#[trigger] line@[k]),
        decreases line@.len() - i,
    {
        if !crate::format::whitespace(line[i]) {
            return false;
        }
        i = i + 1;
    }
    true
}

/// Dedents the interior lines of a multi-line slice by their common
/// leading spaces. The writer re-indents after every newline it prints, so
/// a verbatim multi-line slice (macro span, block comment) would otherwise
/// gain one indent level per pass; dedented lines pick up the output depth
/// from the writer instead.
pub fn dedented_raw(slice: &str) -> (text: String)
    ensures
        text@ == dedented(slice@),
{
    let mut lines: Vec<Vec<char>> = Vec::new();
    let mut current: Vec<char> = Vec::new();
    let ghost chars = slice@;
    let ghost mut k: int = 0;
    for c in it: slice.chars()
        invariant
            k == it.index(),
            it.seq() == chars,
            0 <= k <= chars.len(),
            split_lines(chars.take(k)) == lines@.map_values(|l: Vec<char>| l@).push(current@),
    {
        proof {
            assert(chars.take(k + 1).drop_last() == chars.take(k));
            assert(chars.take(k + 1).last() == c);
        }
        if c == '\n' {
            let done = current;
            lines.push(done);
            current = Vec::new();
            proof {
                assert(lines@.map_values(|l: Vec<char>| l@) =~= old_lines_view(lines@.drop_last()).push(done@)) by {
                    assert(lines@.drop_last().map_values(|l: Vec<char>| l@) == old_lines_view(lines@.drop_last()));
                }
            }
        } else {
            current.push(c);
        }
        proof {
            k = k + 1;
            assert(split_lines(chars.take(k)) =~= lines@.map_values(|l: Vec<char>| l@).push(current@));
        }
    }
    proof {
        assert(chars.take(k) == chars);
    }
    let ghost all = lines@.map_values(|l: Vec<char>| l@).push(current@);
    lines.push(current);
    proof {
        assert(lines@.map_values(|l: Vec<char>| l@) =~= all);
    }
    if lines.len() <= 1 {
        proof {
            lemma_split_lines_one(slice@);
        }
        let mut text = String::new();
        text.append(slice);
        proof {
            assert(text@ =~= slice@);
        }
        return text;
    }
    // The smallest indent among the non-blank interior lines.
    let mut dedent: Option<usize> = None;
    let mut i: usize = 1;
    while i < lines.len()
        invariant
            1 <= i <= lines@.len(),
            lines@.map_values(|l: Vec<char>| l@) == split_lines(slice@),
            match dedent {
                Some(d) => min_indent(split_lines(slice@).subrange(1, i as int)) == Some(d as int),
                None => min_indent(split_lines(slice@).subrange(1, i as int)) is None,
            },
        decreases lines@.len() - i,
    {
        proof {
            let ls = split_lines(slice@);
            assert(ls.subrange(1, i + 1).drop_last() == ls.subrange(1, i as int));
            assert(ls.subrange(1, i + 1).last() == lines@[i as int]@);
        }
        if !is_blank(&lines[i]) {
            let lead = leading_spaces_of(&lines[i]);
            dedent = match dedent {
                None => Some(lead),
                Some(m) => Some(if lead < m { lead } else { m }),
            };
        }
        i = i + 1;
    }
    let dedent = match dedent {
        Some(d) => d,
        None => 0,
    };
    let mut text = String::new();
    let first = &lines[0];
    let mut j: usize = 0;
    while j < first.len()
        invariant
            j <= first@.len(),
            text@ == first@.take(j as int),
        decreases first@.len() - j,
    {
        text.push(first[j]);
        j = j + 1;
        proof {
            assert(text@ =~= first@.take(j as int));
        }
    }
    proof {
        let ls = split_lines(slice@);
        assert(ls.subrange(1, lines@.len() as int) =~= ls.drop_first());
        assert(first@ == ls[0]);
        assert(first@.take(first@.len() as int) == first@);
        assert(ls.drop_first().subrange(0, 0) =~= Seq::<Seq<char>>::empty());
    }
    let mut i: usize = 1;
    while i < lines.len()
        invariant
            1 <= i <= lines@.len(),
            lines@.map_values(|l: Vec<char>| l@) == split_lines(slice@),
            split_lines(slice@).len() > 1,
            dedent == match min_indent(split_lines(slice@).drop_first()) {
                Some(m) => m,
                None => 0,
            },
            text@ == split_lines(slice@)[0] + join_dedented(
                split_lines(slice@).drop_first().subrange(0, i - 1),
                dedent as int,
            ),
        decreases lines@.len() - i,
    {
        let line = &lines[i];
        let lead = leading_spaces_of(line);
        let cut = if dedent < lead {
            dedent
        } else {
            lead
        };
        let ghost before = text@;
        text.push('\n');
        let mut j: usize = cut;
        while j < line.len()
            invariant
                cut <= j <= line@.len(),
                text@ == before.push('\n') + line@.subrange(cut as int, j as int),
            decreases line@.len() - j,
        {
            text.push(line[j]);
            j = j + 1;
            proof {
                assert(text@ =~= before.push('\n') + line@.subrange(cut as int, j as int));
            }
        }
        proof {
            let rest = split_lines(slice@).drop_first();
            assert(rest.subrange(0, i as int).drop_last() == rest.subrange(0, i - 1));
            assert(rest.subrange(0, i as int).last() == line@);
            assert(line@.subrange(cut as int, line@.len() as int) == line@.skip(cut as int));
            assert(text@ =~= split_lines(slice@)[0] + join_dedented(rest.subrange(0, i as int), dedent as int));
        }
        i = i + 1;
    }
    proof {
        let rest = split_lines(slice@).drop_first();
        assert(rest.subrange(0, lines@.len() - 1) == rest);
    }
    text
}

spec fn old_lines_view(lines: Seq<Vec<char>>) -> Seq<Seq<char>> {
    lines.map_values(|l: Vec<char>| l@)
}


/// An owned copy of `s`.
pub fn owned(s: &str) -> (t: String)
    ensures
        t@ == s@,
{
    let mut t = String::new();
    t.append(s);
    proof {
        assert(t@ =~= s@);
    }
    t
}

/// `a`, `b` and `c` one after another.
pub fn concat3(a: &str, b: &str, c: &str) -> (s: String)
    ensures
        s@ == a@ + b@ + c@,
{
    let mut s = String::new();
    s.append(a);
    s.append(b);
    s.append(c);
    proof {
        assert(s@ =~= a@ + b@ + c@);
    }
    s
}

/// The number of diagnostics that report the tree itself rather than a
/// span outside the source.
pub open spec fn reported_count(diagnostics: Seq<BuildDiagnostic>) -> int
    decreases diagnostics.len(),
{
    if diagnostics.len() == 0 {
        0
    } else {
        reported_count(diagnostics.drop_last()) + if diagnostics.last() is InvalidSpan {
            0int
        } else {
            1int
        }
    }
}

/// Every range that `diagnostics` report as invalid is indeed no slice of
/// `source`: none of them lies on character boundaries inside it.
pub open spec fn spans_outside(source: Seq<u8>, diagnostics: Seq<BuildDiagnostic>) -> bool
    decreases diagnostics.len(),
{
    if diagnostics.len() == 0 {
        true
    } else {
        &&& spans_outside(source, diagnostics.drop_last())
        &&& diagnostics.last() matches BuildDiagnostic::InvalidSpan(span) ==> !(0 <= span.start
            <= span.end <= source.len() && vstd::utf8::is_char_boundary(source, span.end as int)
            && vstd::utf8::is_char_boundary(source.subrange(0, span.end as int), span.start as int))
    }
}

/// Every index of `v` is below `bound`.
pub open spec fn all_below(v: Seq<DocumentIdx>, bound: int) -> bool {
    forall|i: int| 0 <= i < v.len() ==> (#[trigger] v[i]).0 < bound
}

/// `list` without the line breaks it starts with.
pub open spec fn skip_leading_newlines(docs: Seq<DocumentView>, list: Seq<DocumentIdx>) -> Seq<
    DocumentIdx,
>
    decreases list.len(),
{
    if list.len() > 0 && 0 <= list[0].0 < docs.len() && docs[list[0].0 as int]
        == DocumentView::Newline {
        skip_leading_newlines(docs, list.drop_first())
    } else {
        list
    }
}

/// `list` with runs of line breaks at its end cut to one.
pub open spec fn drop_doubled_trailing(docs: Seq<DocumentView>, list: Seq<DocumentIdx>) -> Seq<
    DocumentIdx,
>
    decreases list.len(),
{
    if list.len() >= 2 && 0 <= list.last().0 < docs.len() && 0 <= list[list.len() - 2].0
        < docs.len() && docs[list.last().0 as int] == DocumentView::Newline && docs[list[list.len()
        - 2].0 as int] == DocumentView::Newline {
        drop_doubled_trailing(docs, list.drop_last())
    } else {
        list
    }
}

impl<'code> DocumentBuilder<'code> {
    /// The documents built so far.
    pub closed spec fn docs(&self) -> Seq<DocumentView> {
        self.inner@
    }

    /// The builder's invariant: its store is well formed and its source
    /// is addressable.
    pub closed spec fn wf(&self) -> bool {
        &&& self.inner.wf()
        &&& self.source.spec_bytes().len() < usize::MAX
        &&& spans_outside(self.source.spec_bytes(), self.diagnostics@)
    }

    /// How far a nested body is indented.
    pub closed spec fn indent_width(&self) -> isize {
        self.indent
    }

    /// The source the spans refer to.
    pub closed spec fn source_bytes(&self) -> Seq<u8> {
        self.source.spec_bytes()
    }

    /// The diagnostics recorded so far.
    pub closed spec fn diagnostic_list(&self) -> Seq<BuildDiagnostic> {
        self.diagnostics@
    }

    /// How many diagnostics report the tree itself.
    pub open spec fn reported(&self) -> int {
        reported_count(self.diagnostic_list())
    }

    /// `self` is `before` grown without a new report on the tree.
    pub open spec fn grows_quietly(&self, before: &Self) -> bool {
        &&& self.grows_unreported(before)
        &&& self.diagnostic_list() == before.diagnostic_list()
    }

    /// `self` is `before` grown without a new report on the tree (a span
    /// that is no slice of the source may still have been recorded).
    pub open spec fn grows_unreported(&self, before: &Self) -> bool {
        &&& self.grows(before)
        &&& self.reported() == before.reported()
    }

    /// `idx` names a document built so far.
    pub open spec fn holds(&self, idx: DocumentIdx) -> bool {
        idx.0 < self.docs().len()
    }

    /// `self` is `before` with documents (and diagnostics) only added: the
    /// documents built before are unchanged.
    pub open spec fn grows(&self, before: &Self) -> bool {
        &&& self.wf()
        &&& self.indent_width() == before.indent_width()
        &&& self.source_bytes() == before.source_bytes()
        &&& self.reported() >= before.reported()
        &&& before.docs().len() <= self.docs().len()
        &&& forall|i: int|
            0 <= i < before.docs().len() ==> #[trigger] self.docs()[i] == before.docs()[i]
    }

    /// The builder and the comment map describe the same source.
    pub open spec fn ready(&self, comments: &CommentMap) -> bool {
        &&& self.wf()
        &&& comments.wf()
        &&& comments.layout().bytes == self.source_bytes()
    }

    /// A builder for nesting bodies by `indent`, with nothing built yet.
    pub fn new(indent: isize) -> (builder: Self)
        ensures
            builder.wf(),
            builder.docs() == Seq::<DocumentView>::empty(),
            builder.indent_width() == indent,
            builder.diagnostic_list() == Seq::<BuildDiagnostic>::empty(),
    {
        proof {
            reveal_strlit("");
        }
        DocumentBuilder {
            indent,
            source: "",
            diagnostics: Vec::new(),
            inner: InternedDocumentStore::new(),
        }
    }

    fn add(&mut self, document: Document) -> (idx: DocumentIdx)
        requires
            old(self).wf(),
            children_below(document@, old(self).docs().len() as int),
        ensures
            final(self).grows_quietly(old(self)),
            final(self).holds(idx),
            final(self).docs()[idx.0 as int] == document@,
            final(self).diagnostic_list() == old(self).diagnostic_list(),
    {
        self.inner.add(document)
    }

    fn newline(&mut self) -> (idx: DocumentIdx)
        requires
            old(self).wf(),
        ensures
            final(self).grows_quietly(old(self)),
            final(self).holds(idx),
            final(self).docs()[idx.0 as int] == DocumentView::Newline,
    {
        self.add(Document::Newline)
    }

    fn text(&mut self, text: &str) -> (idx: DocumentIdx)
        requires
            old(self).wf(),
        ensures
            final(self).grows_quietly(old(self)),
            final(self).holds(idx),
            final(self).docs()[idx.0 as int] == DocumentView::Text(text@),
            final(self).diagnostic_list() == old(self).diagnostic_list(),
    {
        self.add(Document::Text(owned(text)))
    }

    fn text_owned(&mut self, text: String) -> (idx: DocumentIdx)
        requires
            old(self).wf(),
        ensures
            final(self).grows_quietly(old(self)),
            final(self).holds(idx),
            final(self).docs()[idx.0 as int] == DocumentView::Text(text@),
            final(self).diagnostic_list() == old(self).diagnostic_list(),
    {
        self.add(Document::Text(text))
    }

    fn raw_text(&mut self, text: String) -> (idx: DocumentIdx)
        requires
            old(self).wf(),
        ensures
            final(self).grows_quietly(old(self)),
            final(self).holds(idx),
            final(self).docs()[idx.0 as int] == DocumentView::Raw(text@),
    {
        self.add(Document::Raw(text))
    }

    fn verbatim(&mut self, text: String) -> (idx: DocumentIdx)
        requires
            old(self).wf(),
        ensures
            final(self).grows_quietly(old(self)),
            final(self).holds(idx),
            final(self).docs()[idx.0 as int] == DocumentView::Verbatim(text@),
    {
        self.add(Document::Verbatim(text))
    }

    /// A string literal, which may hold raw newlines. Spade strings have no
    /// escape sequences, so the parsed value is the exact source text.
    fn string_literal(&mut self, value: &String) -> (idx: DocumentIdx)
        requires
            old(self).wf(),
        ensures
            final(self).grows_quietly(old(self)),
            final(self).holds(idx),
            final(self).docs()[idx.0 as int] == DocumentView::Verbatim(
                seq!['"'] + value@ + seq!['"'],
            ),
    {
        let quoted = concat3("\"", value.as_str(), "\"");
        proof {
            reveal_strlit("\"");
            assert("\""@ =~= seq!['"']);
        }
        self.verbatim(quoted)
    }

    fn nest(&mut self, body: DocumentIdx, by: isize) -> (idx: DocumentIdx)
        requires
            old(self).wf(),
            old(self).holds(body),
        ensures
            final(self).grows_quietly(old(self)),
            final(self).holds(idx),
            final(self).docs()[idx.0 as int] == DocumentView::Nest(body, by),
    {
        self.add(Document::Nest(body, by))
    }

    fn flatten(&mut self, body: DocumentIdx) -> (idx: DocumentIdx)
        requires
            old(self).wf(),
            old(self).holds(body),
        ensures
            final(self).grows_quietly(old(self)),
            final(self).holds(idx),
            final(self).docs()[idx.0 as int] == DocumentView::Flatten(body),
    {
        self.add(Document::Flatten(body))
    }

    fn try_catch(&mut self, try_body: DocumentIdx, catch_body: DocumentIdx) -> (idx: DocumentIdx)
        requires
            old(self).wf(),
            old(self).holds(try_body),
            old(self).holds(catch_body),
        ensures
            final(self).grows_quietly(old(self)),
            final(self).holds(idx),
            final(self).docs()[idx.0 as int] == DocumentView::TryCatch(try_body, catch_body),
    {
        self.add(Document::TryCatch(try_body, catch_body))
    }

    fn list(&mut self, children: Vec<DocumentIdx>) -> (idx: DocumentIdx)
        requires
            old(self).wf(),
            all_below(children@, old(self).docs().len() as int),
        ensures
            final(self).grows_quietly(old(self)),
            final(self).holds(idx),
            final(self).docs()[idx.0 as int] == DocumentView::List(children@),
    {
        self.add(Document::List(children))
    }

    /// The empty list, which prints nothing.
    fn empty(&mut self) -> (idx: DocumentIdx)
        requires
            old(self).wf(),
        ensures
            final(self).grows_quietly(old(self)),
            final(self).holds(idx),
            final(self).docs()[idx.0 as int] == DocumentView::List(Seq::empty()),
    {
        let v: Vec<DocumentIdx> = Vec::new();
        proof {
            assert(v@ =~= Seq::<DocumentIdx>::empty());
        }
        self.list(v)
    }

    /// Whether `idx` is the empty list, which prints nothing.
    fn is_empty(&self, idx: DocumentIdx) -> (empty: bool)
        requires
            self.holds(idx),
        ensures
            empty == (self.docs()[idx.0 as int] == DocumentView::List(Seq::empty())),
    {
        match self.inner.get(idx) {
            Document::List(children) => {
                proof {
                    if children@.len() == 0 {
                        assert(children@ =~= Seq::<DocumentIdx>::empty());
                    }
                }
                children.len() == 0
            },
            _ => false,
        }
    }

    /// Whether `idx` is a line break.
    fn is_newline(&self, idx: DocumentIdx) -> (newline: bool)
        requires
            self.holds(idx),
        ensures
            newline == (self.docs()[idx.0 as int] == DocumentView::Newline),
    {
        match self.inner.get(idx) {
            Document::Newline => true,
            _ => false,
        }
    }

    /// `list` as a list document, without its leading line breaks and
    /// with a run of line breaks at its end cut to one.
    fn trim_list(&mut self, list: Vec<DocumentIdx>) -> (idx: DocumentIdx)
        requires
            old(self).wf(),
            all_below(list@, old(self).docs().len() as int),
        ensures
            final(self).grows_quietly(old(self)),
            final(self).holds(idx),
            final(self).docs()[idx.0 as int] == DocumentView::List(
                drop_doubled_trailing(old(self).docs(), skip_leading_newlines(old(self).docs(), list@)),
            ),
    {
        let mut start: usize = 0;
        proof {
            assert(list@.skip(0) =~= list@);
        }
        while start < list.len() && self.is_newline(list[start])
            invariant
                start <= list@.len(),
                all_below(list@, self.docs().len() as int),
                skip_leading_newlines(self.docs(), list@) == skip_leading_newlines(
                    self.docs(),
                    list@.skip(start as int),
                ),
            decreases list@.len() - start,
        {
            proof {
                assert(list@.skip(start as int).drop_first() =~= list@.skip(start + 1));
            }
            start = start + 1;
        }
        let mut trimmed: Vec<DocumentIdx> = Vec::new();
        let mut i: usize = start;
        while i < list.len()
            invariant
                start <= i <= list@.len(),
                trimmed@ == list@.subrange(start as int, i as int),
            decreases list@.len() - i,
        {
            trimmed.push(list[i]);
            i = i + 1;
            proof {
                assert(trimmed@ =~= list@.subrange(start as int, i as int));
            }
        }
        proof {
            assert(trimmed@ =~= list@.skip(start as int));
        }
        while trimmed.len() >= 2 && self.is_newline(trimmed[trimmed.len() - 1]) && self.is_newline(
            trimmed[trimmed.len() - 2],
        )
            invariant
                all_below(list@, self.docs().len() as int),
                all_below(trimmed@, self.docs().len() as int),
                drop_doubled_trailing(self.docs(), skip_leading_newlines(self.docs(), list@))
                    == drop_doubled_trailing(self.docs(), trimmed@),
            decreases trimmed@.len(),
        {
            let ghost before = trimmed@;
            trimmed.pop();
            proof {
                assert(trimmed@ =~= before.drop_last());
            }
        }
        self.list(trimmed)
    }

    /// Records a construct the builder cannot format yet.
    fn record_unsupported(&mut self, span: Span, construct: &'static str)
        requires
            old(self).wf(),
        ensures
            final(self).grows(old(self)),
            final(self).docs() == old(self).docs(),
            final(self).diagnostic_list() == old(self).diagnostic_list().push(
                BuildDiagnostic::Unsupported { span, construct },
            ),
            final(self).reported() == old(self).reported() + 1,
    {
        self.diagnostics.push(BuildDiagnostic::Unsupported { span, construct });
        proof {
            assert(self.diagnostics@.drop_last() =~= old(self).diagnostics@);
        }
    }

    /// [`Self::record_unsupported`] for expression position: an empty
    /// text stands in for the construct.
    fn unsupported(&mut self, span: Span, construct: &'static str) -> (idx: DocumentIdx)
        requires
            old(self).wf(),
        ensures
            final(self).grows(old(self)),
            final(self).holds(idx),
            final(self).docs()[idx.0 as int] == DocumentView::Text(Seq::empty()),
            final(self).diagnostic_list() == old(self).diagnostic_list().push(
                BuildDiagnostic::Unsupported { span, construct },
            ),
            final(self).reported() == old(self).reported() + 1,
    {
        self.record_unsupported(span, construct);
        let empty = String::new();
        self.text_owned(empty)
    }

    /// The source text of `start..end`. A range that is not a slice of the
    /// source is recorded as a diagnostic and reads as empty.
    /// (Every span the parser hands out is such a slice.)
    fn source_slice(&mut self, start: usize, end: usize) -> (text: &'code str)
        requires
            old(self).wf(),
        ensures
            final(self).grows_unreported(old(self)),
            final(self).docs() == old(self).docs(),
            sliceable(old(self).source, start as int, end as int) ==> text.spec_bytes()
                == old(self).source_bytes().subrange(start as int, end as int),
            !sliceable(old(self).source, start as int, end as int) ==> text@ == Seq::<char>::empty(),
    {
        match checked_slice(self.source, start, end) {
            Some(text) => text,
            None => {
                self.diagnostics.push(BuildDiagnostic::InvalidSpan(Span { start, end }));
                proof {
                    reveal_strlit("");
                    assert(self.diagnostics@.drop_last() =~= old(self).diagnostics@);
                }
                ""
            },
        }
    }

    /// The line holding `byte`.
    fn line_of(&self, comments: &CommentMap, byte: usize) -> (line: usize)
        requires
            comments.wf(),
        ensures
            line == comments.layout().line_of(byte as int),
    {
        proof {
            comments.lemma_wf_layout();
        }
        comments.line_of(byte)
    }

    /// `byte`, or the end of the source when it lies past it.
    fn clamp(&self, byte: usize) -> (clamped: usize)
        requires
            self.wf(),
        ensures
            clamped == if byte <= self.source_bytes().len() {
                byte as int
            } else {
                self.source_bytes().len() as int
            },
    {
        if byte <= self.source.len() {
            byte
        } else {
            self.source.len()
        }
    }
}


/// `u8::is_ascii_whitespace`.
fn ascii_ws(b: u8) -> (r: bool)
    ensures
        r == crate::comment_insertion::is_ws(b),
{
    b == 32 || b == 9 || b == 10 || b == 12 || b == 13
}

impl<'code> DocumentBuilder<'code> {
    /// Claims the leading comments of a construct starting at `anchor`
    /// (clamped to the source): own-line and inline ones, or under
    /// `adjacent` only those with nothing but whitespace and comments up to
    /// the anchor, and under `inline_only` only inline ones.
    fn claim_leading<'c>(
        &self,
        comments: &mut CommentMap<'c>,
        anchor: usize,
        adjacent: bool,
        inline_only: bool,
    ) -> (taken: Vec<CommentToPrint<'c>>)
        requires
            self.ready(old(comments)),
        ensures
            final(comments).kept_from(old(comments)),
            final(comments).claimed_from(
                old(comments),
                |k: int|
                    old(comments).leading_admits(
                        clamped(self.source_bytes().len() as int, anchor as int),
                        adjacent || inline_only,
                        inline_only,
                        k,
                    ),
                taken@,
            ),
    {
        let a = self.clamp(anchor);
        let ghost admits = |k: int|
            old(comments).leading_admits(
                clamped(self.source_bytes().len() as int, anchor as int),
                adjacent || inline_only,
                inline_only,
                k,
            );
        if inline_only {
            let taken = comments.take_inline_leading(a);
            proof {
                assert((|k: int| old(comments).leading_admits(a as int, true, true, k)) =~= admits);
            }
            taken
        } else if adjacent {
            let taken = comments.take_adjacent_leading(a);
            proof {
                assert((|k: int| old(comments).leading_admits(a as int, true, false, k)) =~= admits);
            }
            taken
        } else {
            let taken = comments.take_leading(a);
            proof {
                assert((|k: int| old(comments).leading_admits(a as int, false, false, k)) =~= admits);
            }
            taken
        }
    }

    /// Claims the trailing comments of a construct ending at `end`.
    fn claim_trailing<'c>(&self, comments: &mut CommentMap<'c>, end: usize) -> (taken: Vec<
        CommentToPrint<'c>,
    >)
        requires
            self.ready(old(comments)),
        ensures
            final(comments).kept_from(old(comments)),
            final(comments).claimed_from(
                old(comments),
                |k: int|
                    old(comments).trailing_admits(
                        end as int,
                        old(comments).layout().line_of(end as int),
                        k,
                    ),
                taken@,
            ),
    {
        let end_line = self.line_of(comments, end);
        comments.take_trailing(end, end_line)
    }

    /// Claims the comments trailing an opening delimiter at `open`, before
    /// `upper`.
    fn claim_open_trailing<'c>(&self, comments: &mut CommentMap<'c>, open: usize, upper: usize) -> (taken:
        Vec<CommentToPrint<'c>>)
        requires
            self.ready(old(comments)),
        ensures
            final(comments).kept_from(old(comments)),
            final(comments).claimed_from(
                old(comments),
                |k: int| old(comments).open_trailing_admits(open as int, upper as int, k),
                taken@,
            ),
    {
        comments.take_open_trailing(open, upper)
    }

    /// Claims the own-line comments left in `start..end`.
    fn claim_between<'c>(&self, comments: &mut CommentMap<'c>, start: usize, end: usize) -> (taken: Vec<
        CommentToPrint<'c>,
    >)
        requires
            self.ready(old(comments)),
        ensures
            final(comments).kept_from(old(comments)),
            final(comments).claimed_from(
                old(comments),
                |k: int| old(comments).between_admits(start as int, end as int, k),
                taken@,
            ),
    {
        comments.take_between(start..end)
    }

    /// Claims every comment inside `start..end`.
    fn claim_within<'c>(&self, comments: &mut CommentMap<'c>, start: usize, end: usize) -> (taken: Vec<
        CommentToPrint<'c>,
    >)
        requires
            self.ready(old(comments)),
        ensures
            final(comments).kept_from(old(comments)),
            final(comments).claimed_from(
                old(comments),
                |k: int| old(comments).within_admits(start as int, end as int, k),
                taken@,
            ),
    {
        comments.take_within(&(start..end))
    }

    /// Appends `leading` before a construct on `construct_line`: own-line
    /// comments on their own lines, inline ones followed by a space, with
    /// source blank lines preserved (collapsed to one).
    fn emit_leading(
        &mut self,
        leading: &Vec<CommentToPrint>,
        construct_line: usize,
        list: &mut Vec<DocumentIdx>,
    )
        requires
            old(self).wf(),
            all_below(old(list)@, old(self).docs().len() as int),
        ensures
            final(self).grows_quietly(old(self)),
            all_below(final(list)@, final(self).docs().len() as int),
            appends(
                final(list)@,
                old(list)@,
                final(self).docs(),
                leading_docs(leading@, construct_line as int),
            ),
    {
        let mut prev_end_line: Option<usize> = None;
        let mut last_inline = false;
        let mut i: usize = 0;
        proof {
            lemma_appends_nothing(list@, self.docs());
            reveal_strlit(" ");
            assert(leading@.take(0) =~= Seq::<CommentToPrint>::empty());
        }
        while i < leading.len()
            invariant
                i <= leading@.len(),
                self.grows_quietly(old(self)),
                all_below(list@, self.docs().len() as int),
                appends(list@, old(list)@, self.docs(), leading_body(leading@.take(i as int))),
                prev_end_line == if i == 0 {
                    None
                } else {
                    Some(leading@[i - 1].end_line)
                },
                last_inline == (i > 0 && leading@[i - 1].inline),
                " "@ == seq![' '],
            decreases leading@.len() - i,
        {
            let comment = leading[i];
            let ghost l0 = list@;
            let ghost d0 = self.docs();
            let ghost body = leading_body(leading@.take(i as int));
            proof {
                let t = leading@.take(i + 1);
                assert(t.drop_last() =~= leading@.take(i as int));
                assert(t.last() == comment);
            }
            if let Some(prev) = prev_end_line {
                if prev < comment.start_line && comment.start_line - prev > 1 {
                    let gap = self.newline();
                    proof {
                        lemma_appends_grows(list@, old(list)@, d0, self.docs(), body);
                        lemma_appends_push(list@, old(list)@, self.docs(), body, gap);
                    }
                    list.push(gap);
                }
            }
            let ghost gap_docs = gap_before(prev_end_line, comment.start_line as int);
            assert(appends(list@, old(list)@, self.docs(), body + gap_docs)) by {
                if !(prev_end_line matches Some(prev) && prev < comment.start_line
                    && comment.start_line - prev > 1) {
                    assert(body + gap_docs =~= body);
                } else {
                    assert(body.push(DocumentView::Newline) =~= body + gap_docs);
                }
            }
            let ghost d1 = self.docs();
            let raw = self.raw_text(dedented_raw(comment.text));
            proof {
                lemma_appends_grows(list@, old(list)@, d1, self.docs(), body + gap_docs);
                lemma_appends_push(list@, old(list)@, self.docs(), body + gap_docs, raw);
            }
            list.push(raw);
            let ghost d2 = self.docs();
            let ghost b2 = (body + gap_docs).push(comment_doc(comment));
            let after = if comment.inline {
                self.text(" ")
            } else {
                self.newline()
            };
            proof {
                lemma_appends_grows(list@, old(list)@, d2, self.docs(), b2);
                lemma_appends_push(list@, old(list)@, self.docs(), b2, after);
                assert(b2.push(self.docs()[after.0 as int]) =~= leading_body(leading@.take(i + 1)));
            }
            list.push(after);
            prev_end_line = Some(comment.end_line);
            last_inline = comment.inline;
            i = i + 1;
        }
        proof {
            assert(leading@.take(leading@.len() as int) =~= leading@);
        }
        let ghost body = leading_body(leading@);
        if !last_inline {
            if let Some(prev) = prev_end_line {
                if prev < construct_line && construct_line - prev > 1 {
                    let ghost d0 = self.docs();
                    let gap = self.newline();
                    proof {
                        lemma_appends_grows(list@, old(list)@, d0, self.docs(), body);
                        lemma_appends_push(list@, old(list)@, self.docs(), body, gap);
                        assert(body.push(DocumentView::Newline) =~= leading_docs(
                            leading@,
                            construct_line as int,
                        ));
                    }
                    list.push(gap);
                    return;
                }
            }
        }
        proof {
            assert(body =~= leading_docs(leading@, construct_line as int));
        }
    }

    /// Appends `trailing` after a construct, space-separated on its line.
    fn emit_trailing(&mut self, trailing: &Vec<CommentToPrint>, list: &mut Vec<DocumentIdx>)
        requires
            old(self).wf(),
            all_below(old(list)@, old(self).docs().len() as int),
        ensures
            final(self).grows_quietly(old(self)),
            all_below(final(list)@, final(self).docs().len() as int),
            appends(final(list)@, old(list)@, final(self).docs(), trailing_docs(trailing@)),
    {
        let mut i: usize = 0;
        proof {
            lemma_appends_nothing(list@, self.docs());
            reveal_strlit(" ");
            assert(trailing@.take(0) =~= Seq::<CommentToPrint>::empty());
        }
        while i < trailing.len()
            invariant
                i <= trailing@.len(),
                self.grows_quietly(old(self)),
                all_below(list@, self.docs().len() as int),
                appends(list@, old(list)@, self.docs(), trailing_docs(trailing@.take(i as int))),
                " "@ == seq![' '],
            decreases trailing@.len() - i,
        {
            let comment = trailing[i];
            let ghost body = trailing_docs(trailing@.take(i as int));
            proof {
                let t = trailing@.take(i + 1);
                assert(t.drop_last() =~= trailing@.take(i as int));
                assert(t.last() == comment);
            }
            let ghost d0 = self.docs();
            let space = self.text(" ");
            proof {
                lemma_appends_grows(list@, old(list)@, d0, self.docs(), body);
                lemma_appends_push(list@, old(list)@, self.docs(), body, space);
            }
            list.push(space);
            let ghost d1 = self.docs();
            let ghost b1 = body.push(DocumentView::Text(seq![' ']));
            let raw = self.raw_text(dedented_raw(comment.text));
            proof {
                lemma_appends_grows(list@, old(list)@, d1, self.docs(), b1);
                lemma_appends_push(list@, old(list)@, self.docs(), b1, raw);
                assert(b1.push(self.docs()[raw.0 as int]) =~= trailing_docs(trailing@.take(i + 1)));
            }
            list.push(raw);
            i = i + 1;
        }
        proof {
            assert(trailing@.take(trailing@.len() as int) =~= trailing@);
        }
    }

    /// Appends scope-trailing comments (nothing follows them in their
    /// scope), each on its own line after content ending on
    /// `prev_end_line` ([`None`] at the start of the scope).
    fn emit_scope_trailing(
        &mut self,
        rest: &Vec<CommentToPrint>,
        prev_end_line: Option<usize>,
        list: &mut Vec<DocumentIdx>,
    )
        requires
            old(self).wf(),
            all_below(old(list)@, old(self).docs().len() as int),
        ensures
            final(self).grows_quietly(old(self)),
            all_below(final(list)@, final(self).docs().len() as int),
            appends(
                final(list)@,
                old(list)@,
                final(self).docs(),
                scope_trailing_docs(rest@, prev_end_line),
            ),
    {
        let ghost prev0 = prev_end_line;
        let mut prev_end_line = prev_end_line;
        let mut i: usize = 0;
        proof {
            lemma_appends_nothing(list@, self.docs());
            assert(rest@.take(0) =~= Seq::<CommentToPrint>::empty());
        }
        while i < rest.len()
            invariant
                i <= rest@.len(),
                self.grows_quietly(old(self)),
                all_below(list@, self.docs().len() as int),
                appends(list@, old(list)@, self.docs(), scope_trailing_docs(rest@.take(i as int), prev0)),
                prev_end_line == if i == 0 {
                    prev0
                } else {
                    Some(rest@[i - 1].end_line)
                },
            decreases rest@.len() - i,
        {
            let comment = rest[i];
            let ghost body = scope_trailing_docs(rest@.take(i as int), prev0);
            proof {
                let t = rest@.take(i + 1);
                assert(t.drop_last() =~= rest@.take(i as int));
                assert(t.last() == comment);
            }
            let ghost gap_docs = gap_before(prev_end_line, comment.start_line as int);
            let ghost head = body + (if prev_end_line is Some {
                seq![DocumentView::Newline]
            } else {
                Seq::empty()
            }) + gap_docs;
            if let Some(prev) = prev_end_line {
                let ghost d0 = self.docs();
                let line_break = self.newline();
                proof {
                    lemma_appends_grows(list@, old(list)@, d0, self.docs(), body);
                    lemma_appends_push(list@, old(list)@, self.docs(), body, line_break);
                }
                list.push(line_break);
                let ghost b1 = body.push(DocumentView::Newline);
                if prev < comment.start_line && comment.start_line - prev > 1 {
                    let ghost d1 = self.docs();
                    let gap = self.newline();
                    proof {
                        lemma_appends_grows(list@, old(list)@, d1, self.docs(), b1);
                        lemma_appends_push(list@, old(list)@, self.docs(), b1, gap);
                        assert(b1.push(DocumentView::Newline) =~= head);
                    }
                    list.push(gap);
                } else {
                    proof {
                        assert(b1 =~= head);
                    }
                }
            } else {
                proof {
                    assert(body =~= head);
                }
            }
            let ghost d2 = self.docs();
            let raw = self.raw_text(dedented_raw(comment.text));
            proof {
                lemma_appends_grows(list@, old(list)@, d2, self.docs(), head);
                lemma_appends_push(list@, old(list)@, self.docs(), head, raw);
                assert(head.push(self.docs()[raw.0 as int]) =~= scope_trailing_docs(
                    rest@.take(i + 1),
                    prev0,
                ));
            }
            list.push(raw);
            prev_end_line = Some(comment.end_line);
            i = i + 1;
        }
        proof {
            assert(rest@.take(rest@.len() as int) =~= rest@);
        }
    }

    /// An identifier's source text. The lexer strips a raw `r#` prefix
    /// from the name, so only the span keeps it; a span that does not hold
    /// the name (a synthetic one, or a `'label`/`@label` token whose span
    /// includes the sigil) yields the bare name.
    fn identifier_text(&self, ident: &Loc<Identifier>) -> (text: String)
        requires
            self.wf(),
        ensures
            text@ == identifier_spelling(self.source_bytes(), *ident),
    {
        let name = &ident.inner.0;
        let ghost raw = seq!['r', '#'] + name@;
        match checked_slice(self.source, ident.span.start, ident.span.end) {
            Some(slice) => {
                proof {
                    vstd::utf8::encode_utf8_decode_utf8(slice@);
                    vstd::utf8::encode_utf8_decode_utf8(raw);
                }
                let found = owned(slice);
                if found.eq(name) {
                    proof {
                        assert(raw.len() == name@.len() + 2);
                    }
                    return found;
                }
                let prefixed = concat("r#", name.as_str());
                proof {
                    reveal_strlit("r#");
                    assert("r#"@ =~= seq!['r', '#']);
                }
                if found.eq(&prefixed) {
                    return found;
                }
                owned(name.as_str())
            },
            None => owned(name.as_str()),
        }
    }

    fn identifier(&mut self, ident: &Loc<Identifier>) -> (idx: DocumentIdx)
        requires
            old(self).wf(),
        ensures
            final(self).grows_quietly(old(self)),
            final(self).holds(idx),
            final(self).docs()[idx.0 as int] == DocumentView::Text(
                identifier_spelling(old(self).source_bytes(), *ident),
            ),
    {
        let text = self.identifier_text(ident);
        self.text_owned(text)
    }

    fn segment_text(&self, segment: &PathSegment) -> (text: String)
        requires
            self.wf(),
        ensures
            text@ == segment_spelling(self.source_bytes(), *segment),
    {
        match segment {
            PathSegment::Named(ident) => self.identifier_text(ident),
            PathSegment::Impl(n) => {
                let mut text = owned("impl#");
                crate::document::push_digits(&mut text, *n);
                proof {
                    reveal_strlit("impl#");
                    assert("impl#"@ =~= seq!['i', 'm', 'p', 'l', '#']);
                }
                text
            },
            PathSegment::IfT => {
                proof {
                    reveal_strlit("if#true");
                    assert("if#true"@ =~= seq!['i', 'f', '#', 't', 'r', 'u', 'e']);
                }
                owned("if#true")
            },
            PathSegment::IfF => {
                proof {
                    reveal_strlit("if#false");
                    assert("if#false"@ =~= seq!['i', 'f', '#', 'f', 'a', 'l', 's', 'e']);
                }
                owned("if#false")
            },
        }
    }

    /// The texts of `segments[from..to]` joined by `::`.
    fn path_text(&self, segments: &Vec<PathSegment>, from: usize, to: usize) -> (text: String)
        requires
            self.wf(),
            from <= to <= segments@.len(),
        ensures
            text@ == path_spelling(self.source_bytes(), segments@, from as int, to as int),
    {
        let mut text = String::new();
        let mut i: usize = from;
        proof {
            reveal_strlit("::");
            assert("::"@ =~= seq![':', ':']);
        }
        while i < to
            invariant
                self.wf(),
                from <= i <= to <= segments@.len(),
                text@ == path_spelling(self.source_bytes(), segments@, from as int, i as int),
                "::"@ == seq![':', ':'],
            decreases to - i,
        {
            let ghost before = text@;
            if i > from {
                text.append("::");
            }
            let segment = self.segment_text(&segments[i]);
            text.append(segment.as_str());
            proof {
                if i > from {
                    assert(text@ =~= before + seq![':', ':'] + segment@);
                } else {
                    assert(text@ =~= segment@);
                }
            }
            i = i + 1;
        }
        text
    }

    pub fn build_path(&mut self, path: &Loc<Path>) -> (idx: DocumentIdx)
        requires
            old(self).wf(),
        ensures
            final(self).grows_quietly(old(self)),
            final(self).holds(idx),
            final(self).docs()[idx.0 as int] == DocumentView::Text(
                path_spelling(old(self).source_bytes(), path.inner.0@, 0, path.inner.0@.len() as int),
            ),
    {
        let text = self.path_text(&path.inner.0, 0, path.inner.0.len());
        self.text_owned(text)
    }

    /// The exact source bytes of `start..end` as measured text: a token
    /// whose lexeme the AST does not keep (literals). Comments inside the
    /// range are claimed since their text is already part of the slice.
    fn source_text(&mut self, start: usize, end: usize, comments: &mut CommentMap) -> (idx:
        DocumentIdx)
        requires
            old(self).ready(old(comments)),
        ensures
            final(self).grows_unreported(old(self)),
            final(comments).kept_from(old(comments)),
            final(self).holds(idx),
    {
        self.claim_within(comments, start, end);
        let text = self.source_slice(start, end);
        self.text(text)
    }

    /// A pattern or type literal, whose span covers the folded sign, any
    /// comments after it, and the token: prints like an expression
    /// literal, the sign and then the comments leading the token.
    fn signed_literal(&mut self, start: usize, end: usize, comments: &mut CommentMap) -> (idx:
        DocumentIdx)
        requires
            old(self).ready(old(comments)),
        ensures
            final(self).grows_unreported(old(self)),
            final(comments).kept_from(old(comments)),
            final(self).holds(idx),
    {
        let whole = self.source_slice(start, end);
        let bytes = whole.as_bytes();
        let sign: usize = if bytes.len() > 0 && start < end && (bytes[0] == 45 || bytes[0] == 43) {
            1
        } else {
            0
        };
        let leading = self.claim_within(comments, start, end);
        let mut after: usize = start + sign;
        let mut i: usize = 0;
        while i < leading.len()
            invariant
                i <= leading@.len(),
            decreases leading@.len() - i,
        {
            if leading[i].end > after {
                after = leading[i].end;
            }
            i = i + 1;
        }
        if after > end {
            after = end;
        }
        let tail = self.source_slice(after, end);
        let tail_bytes = tail.as_bytes();
        let mut skipped: usize = 0;
        while skipped < tail_bytes.len() && ascii_ws(tail_bytes[skipped])
            invariant
                skipped <= tail_bytes@.len(),
            decreases tail_bytes@.len() - skipped,
        {
            skipped = skipped + 1;
        }
        let token_start: usize = if after <= end - skipped {
            after + skipped
        } else {
            end
        };
        let token_text = self.source_slice(token_start, end);
        let token = self.text(token_text);
        let token = self.with_adjacent_leading(&leading, token_start, token, comments);
        if sign == 0 {
            token
        } else {
            let sign_text = self.source_slice(start, start + 1);
            let sign_doc = self.text(sign_text);
            self.list(vec![sign_doc, token])
        }
    }

    /// The exact source bytes of `span`, printed verbatim. Comments inside
    /// the span are claimed since their text is already part of the slice.
    fn raw_source_span(&mut self, span: Span, comments: &mut CommentMap) -> (idx: DocumentIdx)
        requires
            old(self).ready(old(comments)),
        ensures
            final(self).grows_unreported(old(self)),
            final(comments).kept_from(old(comments)),
            final(self).holds(idx),
    {
        self.claim_within(comments, span.start, span.end);
        let slice = self.source_slice(span.start, span.end);
        let text = dedented_raw(slice);
        self.raw_text(text)
    }

    /// Prefixes the construct `doc` starting at `start` with its claimed
    /// adjacent leading comments. Own-line ones break the line before and
    /// after and nest the comment and construct one level as a
    /// continuation.
    fn with_adjacent_leading(
        &mut self,
        leading: &Vec<CommentToPrint>,
        start: usize,
        doc: DocumentIdx,
        comments: &CommentMap,
    ) -> (idx: DocumentIdx)
        requires
            old(self).ready(comments),
            old(self).holds(doc),
        ensures
            final(self).grows_quietly(old(self)),
            final(self).holds(idx),
            leading@.len() == 0 ==> idx == doc,
            leading@.len() > 0 && has_own_line(leading@) ==> (final(self).docs()[idx.0 as int] matches DocumentView::Nest(
                body,
                by,
            ) && by == final(self).indent_width() && list_then(
                final(self).docs(),
                body.0 as int,
                seq![DocumentView::Newline] + leading_docs(leading@, comments.layout().line_of(start as int)),
                doc,
            )),
            leading@.len() > 0 && !has_own_line(leading@) ==> list_then(
                final(self).docs(),
                idx.0 as int,
                leading_docs(leading@, comments.layout().line_of(start as int)),
                doc,
            ),
    {
        if leading.len() == 0 {
            return doc;
        }
        let mut own_line = false;
        let mut i: usize = 0;
        while i < leading.len()
            invariant
                i <= leading@.len(),
                own_line == exists|j: int| 0 <= j < i && !(#[trigger] leading@[j]).inline,
            decreases leading@.len() - i,
        {
            if !leading[i].inline {
                own_line = true;
            }
            i = i + 1;
        }
        let mut list: Vec<DocumentIdx> = Vec::new();
        let ghost prefix: Seq<DocumentView> = if own_line {
            seq![DocumentView::Newline]
        } else {
            Seq::empty()
        };
        proof {
            lemma_appends_nothing(list@, self.docs());
        }
        if own_line {
            let line_break = self.newline();
            proof {
                lemma_appends_push(list@, Seq::empty(), self.docs(), Seq::empty(), line_break);
                assert(Seq::<DocumentView>::empty().push(DocumentView::Newline) =~= prefix);
            }
            list.push(line_break);
        }
        let line = self.line_of(comments, start);
        let ghost l1 = list@;
        let ghost d1 = self.docs();
        self.emit_leading(leading, line, &mut list);
        proof {
            lemma_appends_grows(l1, Seq::empty(), d1, self.docs(), prefix);
            lemma_appends_chain(list@, l1, Seq::empty(), self.docs(), prefix, leading_docs(leading@, line as int));
        }
        let ghost before = list@;
        list.push(doc);
        let ghost d2 = self.docs();
        let body = self.list(list);
        proof {
            assert(list@.drop_last() =~= before);
            lemma_appends_grows(before, Seq::empty(), d2, self.docs(), prefix + leading_docs(leading@, line as int));
            if !own_line {
                assert(prefix + leading_docs(leading@, line as int) =~= leading_docs(leading@, line as int));
            }
        }
        if own_line {
            let by = self.indent;
            let ghost d3 = self.docs();
            let idx = self.nest(body, by);
            proof {
                lemma_appends_grows(before, Seq::empty(), d3, self.docs(), prefix + leading_docs(leading@, line as int));
            }
            idx
        } else {
            body
        }
    }

    /// Claims the inline-leading comments of a construct starting at
    /// `start` that must not pull whole-line comments inward.
    fn inline_leading<'c>(&self, comments: &mut CommentMap<'c>, start: usize) -> (taken: Vec<
        CommentToPrint<'c>,
    >)
        requires
            self.ready(old(comments)),
        ensures
            final(comments).kept_from(old(comments)),
            final(comments).claimed_from(
                old(comments),
                |k: int|
                    old(comments).leading_admits(
                        clamped(self.source_bytes().len() as int, start as int),
                        true,
                        true,
                        k,
                    ),
                taken@,
            ),
    {
        self.claim_leading(comments, start, true, true)
    }

    /// Prefixes `doc` with claimed inline-leading comments.
    fn with_inline_leading(&mut self, leading: &Vec<CommentToPrint>, doc: DocumentIdx) -> (idx:
        DocumentIdx)
        requires
            old(self).wf(),
            old(self).holds(doc),
        ensures
            final(self).grows_quietly(old(self)),
            final(self).holds(idx),
            leading@.len() == 0 ==> idx == doc,
            leading@.len() > 0 ==> list_then(final(self).docs(), idx.0 as int, inline_docs(leading@), doc),
    {
        if leading.len() == 0 {
            return doc;
        }
        let mut list: Vec<DocumentIdx> = Vec::new();
        let mut i: usize = 0;
        proof {
            lemma_appends_nothing(list@, self.docs());
            reveal_strlit(" ");
            assert(leading@.take(0) =~= Seq::<CommentToPrint>::empty());
        }
        while i < leading.len()
            invariant
                i <= leading@.len(),
                self.grows_quietly(old(self)),
                old(self).holds(doc),
                all_below(list@, self.docs().len() as int),
                appends(list@, Seq::empty(), self.docs(), inline_docs(leading@.take(i as int))),
                " "@ == seq![' '],
            decreases leading@.len() - i,
        {
            let ghost body = inline_docs(leading@.take(i as int));
            proof {
                let t = leading@.take(i + 1);
                assert(t.drop_last() =~= leading@.take(i as int));
                assert(t.last() == leading@[i as int]);
            }
            let ghost d0 = self.docs();
            let raw = self.raw_text(owned(leading[i].text));
            proof {
                lemma_appends_grows(list@, Seq::empty(), d0, self.docs(), body);
                lemma_appends_push(list@, Seq::empty(), self.docs(), body, raw);
            }
            list.push(raw);
            let ghost b1 = body.push(self.docs()[raw.0 as int]);
            let ghost d1 = self.docs();
            let space = self.text(" ");
            proof {
                lemma_appends_grows(list@, Seq::empty(), d1, self.docs(), b1);
                lemma_appends_push(list@, Seq::empty(), self.docs(), b1, space);
                assert(b1.push(self.docs()[space.0 as int]) =~= inline_docs(leading@.take(i + 1)));
            }
            list.push(space);
            i = i + 1;
        }
        proof {
            assert(leading@.take(leading@.len() as int) =~= leading@);
        }
        let ghost before = list@;
        list.push(doc);
        let ghost d2 = self.docs();
        let idx = self.list(list);
        proof {
            assert(list@.drop_last() =~= before);
            lemma_appends_grows(before, Seq::empty(), d2, self.docs(), inline_docs(leading@));
        }
        idx
    }

    /// The rendered `pub` prefix (trailing space included), or [`None`] for
    /// implicit visibility.
    fn visibility_prefix(&mut self, visibility: &Loc<Visibility>) -> (idx: Option<DocumentIdx>)
        requires
            old(self).wf(),
        ensures
            visibility_ok(*visibility) <==> final(self).reported() == old(self).reported(),
            final(self).grows(old(self)),
            idx matches Some(i) ==> final(self).holds(i),
            idx is None <==> visibility.inner is Implicit,
            idx matches Some(i) ==> visibility_ok(*visibility) ==> final(self).docs()[i.0 as int]
                == DocumentView::Text(visibility_keyword(visibility.inner)),
    {
        let keyword = match visibility.inner {
            Visibility::Implicit => {
                return None;
            },
            Visibility::Public => {
                proof {
                    reveal_strlit("pub ");
                }
                "pub "
            },
            Visibility::AtLib => {
                proof {
                    reveal_strlit("pub(lib) ");
                }
                "pub(lib) "
            },
            Visibility::AtSelf => {
                proof {
                    reveal_strlit("pub(self) ");
                }
                "pub(self) "
            },
            Visibility::AtSuper => {
                proof {
                    reveal_strlit("pub(super) ");
                }
                "pub(super) "
            },
            Visibility::AtSuperSuper => {
                // Not producible by the parser today; fail soft regardless.
                let idx = self.unsupported(visibility.span, "this visibility level");
                return Some(idx);
            },
        };
        let idx = self.text(keyword);
        proof {
            assert(keyword@ =~= visibility_keyword(visibility.inner));
        }
        Some(idx)
    }
}


/// Whether `start..end` of the bytes `src` lies on character boundaries.
pub open spec fn spans_text(src: Seq<u8>, start: int, end: int) -> bool {
    &&& 0 <= start <= end <= src.len()
    &&& vstd::utf8::is_char_boundary(src, end)
    &&& vstd::utf8::is_char_boundary(src.subrange(0, end), start)
}

/// How an identifier prints: as `r#name` where its span in `src` spells
/// exactly that, else as its bare name.
pub open spec fn identifier_spelling(src: Seq<u8>, ident: Loc<Identifier>) -> Seq<char> {
    let raw = seq!['r', '#'] + ident.inner.0@;
    if spans_text(src, ident.span.start as int, ident.span.end as int) && src.subrange(
        ident.span.start as int,
        ident.span.end as int,
    ) == vstd::utf8::encode_utf8(raw) {
        raw
    } else {
        ident.inner.0@
    }
}

/// How a path segment prints.
pub open spec fn segment_spelling(src: Seq<u8>, segment: PathSegment) -> Seq<char> {
    match segment {
        PathSegment::Named(ident) => identifier_spelling(src, ident),
        PathSegment::Impl(n) => seq!['i', 'm', 'p', 'l', '#'] + crate::document::decimal_digits(
            n as nat,
        ),
        PathSegment::IfT => seq!['i', 'f', '#', 't', 'r', 'u', 'e'],
        PathSegment::IfF => seq!['i', 'f', '#', 'f', 'a', 'l', 's', 'e'],
    }
}

/// The spellings of `segments[from..to]` joined by `::`.
pub open spec fn path_spelling(src: Seq<u8>, segments: Seq<PathSegment>, from: int, to: int) -> Seq<
    char,
>
    decreases to - from,
{
    if to <= from {
        Seq::empty()
    } else if to == from + 1 {
        segment_spelling(src, segments[from])
    } else {
        path_spelling(src, segments, from, to - 1) + seq![':', ':'] + segment_spelling(
            src,
            segments[to - 1],
        )
    }
}

/// The keyword a visibility prints as, with its trailing space; empty for
/// the implicit one and for one the builder reports as unsupported.
pub open spec fn visibility_keyword(visibility: Visibility) -> Seq<char> {
    match visibility {
        Visibility::Public => seq!['p', 'u', 'b', ' '],
        Visibility::AtLib => seq!['p', 'u', 'b', '(', 'l', 'i', 'b', ')', ' '],
        Visibility::AtSelf => seq!['p', 'u', 'b', '(', 's', 'e', 'l', 'f', ')', ' '],
        Visibility::AtSuper => seq!['p', 'u', 'b', '(', 's', 'u', 'p', 'e', 'r', ')', ' '],
        _ => Seq::empty(),
    }
}

/// `byte`, or `len` when it lies past it.
pub open spec fn clamped(len: int, byte: int) -> int {
    if byte <= len {
        byte
    } else {
        len
    }
}

/// `after` is `before` followed by indices that name, in `docs`, exactly
/// the documents `added`.
pub open spec fn appends(
    after: Seq<DocumentIdx>,
    before: Seq<DocumentIdx>,
    docs: Seq<DocumentView>,
    added: Seq<DocumentView>,
) -> bool {
    &&& after.len() == before.len() + added.len()
    &&& forall|j: int| 0 <= j < before.len() ==> #[trigger] after[j] == before[j]
    &&& forall|j: int|
        before.len() <= j < after.len() ==> (#[trigger] after[j]).0 < docs.len() && docs[after[j].0 as int]
            == added[j - before.len()]
}

/// Nothing appended.
pub proof fn lemma_appends_nothing(list: Seq<DocumentIdx>, docs: Seq<DocumentView>)
    ensures
        appends(list, list, docs, Seq::empty()),
{
}

/// Appending one more index appends the document it names.
pub proof fn lemma_appends_push(
    after: Seq<DocumentIdx>,
    before: Seq<DocumentIdx>,
    docs: Seq<DocumentView>,
    added: Seq<DocumentView>,
    idx: DocumentIdx,
)
    requires
        appends(after, before, docs, added),
        idx.0 < docs.len(),
    ensures
        appends(after.push(idx), before, docs, added.push(docs[idx.0 as int])),
{
    let l = after.push(idx);
    let a2 = added.push(docs[idx.0 as int]);
    assert forall|j: int| 0 <= j < before.len() implies #[trigger] l[j] == before[j] by {
        assert(after[j] == before[j]);
    }
    assert forall|j: int| before.len() <= j < l.len() implies (#[trigger] l[j]).0 < docs.len()
        && docs[l[j].0 as int] == a2[j - before.len()] by {
        if j < after.len() {
            assert(l[j] == after[j]);
        }
    }
}

/// What was appended stays so as the documents grow.
pub proof fn lemma_appends_grows(
    after: Seq<DocumentIdx>,
    before: Seq<DocumentIdx>,
    docs: Seq<DocumentView>,
    grown: Seq<DocumentView>,
    added: Seq<DocumentView>,
)
    requires
        appends(after, before, docs, added),
        docs.len() <= grown.len(),
        forall|i: int| 0 <= i < docs.len() ==> #[trigger] grown[i] == docs[i],
    ensures
        appends(after, before, grown, added),
{
    assert forall|j: int| before.len() <= j < after.len() implies (#[trigger] after[j]).0 < grown.len()
        && grown[after[j].0 as int] == added[j - before.len()] by {
        assert(grown[after[j].0 as int] == docs[after[j].0 as int]);
    }
}

/// Two appends in a row append both, in order.
pub proof fn lemma_appends_chain(
    l2: Seq<DocumentIdx>,
    l1: Seq<DocumentIdx>,
    l0: Seq<DocumentIdx>,
    docs: Seq<DocumentView>,
    a1: Seq<DocumentView>,
    a2: Seq<DocumentView>,
)
    requires
        appends(l1, l0, docs, a1),
        appends(l2, l1, docs, a2),
    ensures
        appends(l2, l0, docs, a1 + a2),
{
    let a = a1 + a2;
    assert forall|j: int| 0 <= j < l0.len() implies #[trigger] l2[j] == l0[j] by {
        assert(l1[j] == l0[j]);
    }
    assert forall|j: int| l0.len() <= j < l2.len() implies (#[trigger] l2[j]).0 < docs.len()
        && docs[l2[j].0 as int] == a[j - l0.len()] by {
        if j < l1.len() {
            assert(l2[j] == l1[j]);
            assert(l1[j].0 < docs.len());
        } else {
            assert(l2[j].0 < docs.len());
        }
    }
}

/// The blank-line gap (one empty line) between content ending on `prev`
/// and content starting on `line`, when lines lie between them.
pub open spec fn gap_before(prev: Option<usize>, line: int) -> Seq<DocumentView> {
    match prev {
        Some(p) => if p < line && line - p > 1 {
            seq![DocumentView::Newline]
        } else {
            Seq::empty()
        },
        None => Seq::empty(),
    }
}

/// How a claimed comment prints: its text with its common indentation
/// removed.
pub open spec fn comment_doc(comment: CommentToPrint) -> DocumentView {
    DocumentView::Raw(dedented(comment.text@))
}

/// Comments trailing a construct: each after a space, on the same line.
pub open spec fn trailing_docs(comments: Seq<CommentToPrint>) -> Seq<DocumentView>
    decreases comments.len(),
{
    if comments.len() == 0 {
        Seq::empty()
    } else {
        trailing_docs(comments.drop_last()) + seq![
            DocumentView::Text(seq![' ']),
            comment_doc(comments.last()),
        ]
    }
}

/// Leading comments without the gap before the construct: each inline one
/// followed by a space, each other one by a line break, with a blank line
/// where the source has lines between two comments.
pub open spec fn leading_body(comments: Seq<CommentToPrint>) -> Seq<DocumentView>
    decreases comments.len(),
{
    if comments.len() == 0 {
        Seq::empty()
    } else {
        let init = comments.drop_last();
        let c = comments.last();
        let prev = if init.len() == 0 {
            None
        } else {
            Some(init.last().end_line)
        };
        leading_body(init) + gap_before(prev, c.start_line as int) + seq![
            comment_doc(c),
            if c.inline {
                DocumentView::Text(seq![' '])
            } else {
                DocumentView::Newline
            },
        ]
    }
}

/// Leading comments before a construct on `construct_line`, with a blank
/// line before the construct where the source has one after an own-line
/// last comment.
pub open spec fn leading_docs(comments: Seq<CommentToPrint>, construct_line: int) -> Seq<
    DocumentView,
> {
    leading_body(comments) + if comments.len() > 0 && !comments.last().inline {
        gap_before(Some(comments.last().end_line), construct_line)
    } else {
        Seq::empty()
    }
}

/// Comments that end a scope, each on its own line after content that
/// ended on `prev` (`None` at the start of the scope), with blank lines
/// kept.
pub open spec fn scope_trailing_docs(comments: Seq<CommentToPrint>, prev: Option<usize>) -> Seq<
    DocumentView,
>
    decreases comments.len(),
{
    if comments.len() == 0 {
        Seq::empty()
    } else {
        let init = comments.drop_last();
        let c = comments.last();
        let before = if init.len() == 0 {
            prev
        } else {
            Some(init.last().end_line)
        };
        scope_trailing_docs(init, prev) + (if before is Some {
            seq![DocumentView::Newline]
        } else {
            Seq::empty()
        }) + gap_before(before, c.start_line as int) + seq![comment_doc(c)]
    }
}

/// The `//!` lines of a module's documentation, one per line.
pub open spec fn module_doc_lines(documentation: Seq<String>) -> Seq<DocumentView>
    decreases documentation.len(),
{
    if documentation.len() == 0 {
        Seq::empty()
    } else {
        module_doc_lines(documentation.drop_last()) + (if documentation.len() > 1 {
            seq![DocumentView::Newline]
        } else {
            Seq::empty()
        }) + seq![DocumentView::Text(seq!['/', '/', '!'] + documentation.last()@)]
    }
}

/// A module's documentation, then a blank line when members follow it.
pub open spec fn module_docs(documentation: Seq<String>, has_members: bool) -> Seq<DocumentView> {
    module_doc_lines(documentation) + if documentation.len() > 0 && has_members {
        seq![DocumentView::Newline, DocumentView::Newline]
    } else {
        Seq::empty()
    }
}

/// Inline-leading comments, each as written and followed by a space.
pub open spec fn inline_docs(comments: Seq<CommentToPrint>) -> Seq<DocumentView>
    decreases comments.len(),
{
    if comments.len() == 0 {
        Seq::empty()
    } else {
        inline_docs(comments.drop_last()) + seq![
            DocumentView::Raw(comments.last().text@),
            DocumentView::Text(seq![' ']),
        ]
    }
}

/// The document at `i` is a list of indices naming `added`, then `last`.
pub open spec fn list_then(docs: Seq<DocumentView>, i: int, added: Seq<DocumentView>, last: DocumentIdx) -> bool {
    &&& 0 <= i < docs.len()
    &&& docs[i] matches DocumentView::List(l) && l.len() == added.len() + 1 && appends(
        l.drop_last(),
        Seq::empty(),
        docs,
        added,
    ) && l.last() == last
}

/// The document at `i` is `open`, `body` and `close` in a list.
pub open spec fn delimited(
    docs: Seq<DocumentView>,
    i: int,
    open: Seq<char>,
    body: DocumentIdx,
    close: Seq<char>,
) -> bool {
    &&& 0 <= i < docs.len()
    &&& docs[i] matches DocumentView::List(l) && l.len() == 3 && l[1] == body && l[0].0 < docs.len()
        && docs[l[0].0 as int] == DocumentView::Text(open) && l[2].0 < docs.len() && docs[l[2].0 as int]
        == DocumentView::Text(close)
}

/// Whether some comment of `comments` goes on a line of its own.
pub open spec fn has_own_line(comments: Seq<CommentToPrint>) -> bool {
    exists|i: int| 0 <= i < comments.len() && !(#[trigger] comments[i]).inline
}

/// The document at `i` is a list of indices naming exactly `added`.
pub open spec fn list_of(docs: Seq<DocumentView>, i: int, added: Seq<DocumentView>) -> bool {
    &&& 0 <= i < docs.len()
    &&& docs[i] matches DocumentView::List(l) && appends(l, Seq::empty(), docs, added)
}

/// The `self` parameter: its leading comments, attributes, `wire ` and
/// `&` where present, `self`, its block comments, the separator, and its
/// line comments.
pub open spec fn self_parameter_docs(
    leading: Seq<CommentToPrint>,
    line: int,
    attributes: DocumentView,
    wire: bool,
    amp: bool,
    block_comments: Seq<CommentToPrint>,
    line_comments: Seq<CommentToPrint>,
    separator: Seq<char>,
) -> Seq<DocumentView> {
    leading_docs(leading, line) + seq![attributes] + (if wire {
        seq![DocumentView::Text(seq!['w', 'i', 'r', 'e', ' '])]
    } else {
        Seq::empty()
    }) + (if amp {
        seq![DocumentView::Text(seq!['&'])]
    } else {
        Seq::empty()
    }) + seq![DocumentView::Text(seq!['s', 'e', 'l', 'f'])] + trailing_docs(block_comments) + seq![
        DocumentView::Text(separator),
    ] + trailing_docs(line_comments)
}

/// The comments a claim admitting `admits` takes from `map`, in source
/// order.
pub open spec fn claim_of<'c>(map: &CommentMap<'c>, admits: spec_fn(int) -> bool) -> Seq<
    CommentToPrint<'c>,
> {
    map.picks(admits, map.count()).map_values(|k: int| map.printed(k))
}

/// The leading comments claimed for a construct starting at `start`.
pub open spec fn leading_claim<'c>(map: &CommentMap<'c>, source_len: int, start: int) -> Seq<
    CommentToPrint<'c>,
> {
    claim_of(map, |k: int| map.leading_admits(clamped(source_len, start), false, false, k))
}

/// The trailing comments claimed for a construct ending at `end`.
pub open spec fn trailing_claim<'c>(map: &CommentMap<'c>, end: int) -> Seq<CommentToPrint<'c>> {
    claim_of(map, |k: int| map.trailing_admits(end, map.layout().line_of(end), k))
}

/// The line a construct effectively starts on: that of its first leading
/// comment, else its own.
pub open spec fn effective_start(leading: Seq<CommentToPrint>, line: int) -> int {
    if leading.len() > 0 {
        leading[0].start_line as int
    } else {
        line
    }
}

/// Before an impl or trait member on `line`: a line break after the one
/// before it (ending on `prev`), a blank line where the source has one,
/// and its leading comments.
pub open spec fn member_start_docs(leading: Seq<CommentToPrint>, prev: Option<usize>, line: int) -> Seq<
    DocumentView,
> {
    (if prev is Some {
        seq![DocumentView::Newline] + gap_before(prev, effective_start(leading, line))
    } else {
        Seq::empty()
    }) + leading_docs(leading, line)
}

/// Before a group element on `line`: after an earlier element, the comma,
/// the held trailing comments, a line break and a blank line where the
/// source has one; then its leading comments.
pub open spec fn element_start_docs(
    leading: Seq<CommentToPrint>,
    started: bool,
    pending: Seq<CommentToPrint>,
    prev_end_line: usize,
    line: int,
) -> Seq<DocumentView> {
    (if started {
        seq![DocumentView::Text(seq![','])] + trailing_docs(pending) + seq![DocumentView::Newline]
            + gap_before(Some(prev_end_line), effective_start(leading, line))
    } else {
        Seq::empty()
    }) + leading_docs(leading, line)
}

/// How a binary operator is spelled.
pub open spec fn binary_text(op: BinaryOperator) -> Seq<char> {
    match op {
        BinaryOperator::Add => "+"@,
        BinaryOperator::Sub => "-"@,
        BinaryOperator::Mul => "*"@,
        BinaryOperator::Div => "/"@,
        BinaryOperator::Mod => "%"@,
        BinaryOperator::Eq => "=="@,
        BinaryOperator::Neq => "!="@,
        BinaryOperator::Lt => "<"@,
        BinaryOperator::Gt => ">"@,
        BinaryOperator::Le => "<="@,
        BinaryOperator::Ge => ">="@,
        BinaryOperator::LogicalAnd => "&&"@,
        BinaryOperator::LogicalOr => "||"@,
        BinaryOperator::LogicalXor => "^^"@,
        BinaryOperator::LeftShift => "<<"@,
        BinaryOperator::RightShift => ">>"@,
        BinaryOperator::ArithmeticRightShift => ">>>"@,
        BinaryOperator::BitwiseAnd => "&"@,
        BinaryOperator::BitwiseOr => "|"@,
        BinaryOperator::BitwiseXor => "^"@,
        BinaryOperator::WrappingAdd => "+."@,
        BinaryOperator::WrappingSub => "-."@,
        BinaryOperator::WrappingMul => "*."@,
        BinaryOperator::WrappingLeftShift => "<<."@,
        BinaryOperator::WrappingRightShift => ">>."@,
    }
}

/// How a unary operator is spelled.
pub open spec fn unary_text(op: UnaryOperator) -> Seq<char> {
    match op {
        UnaryOperator::Sub => "-"@,
        UnaryOperator::Not => "!"@,
        UnaryOperator::BitwiseNot => "~"@,
        UnaryOperator::WrappingSub => "-."@,
        UnaryOperator::Dereference => "*"@,
        UnaryOperator::Reference => "&"@,
    }
}

/// The document at `i` has the shape the builder gives the expression `e`,
/// as far as identifiers, operators, parentheses and the constructs it
/// reports go (other expressions are not constrained here): an identifier
/// prints its path, an operator its spelling between or before its
/// operands in source order, and a reported construct prints nothing.
pub open spec fn expression_doc(src: Seq<u8>, docs: Seq<DocumentView>, i: int, e: Loc<Expression>) -> bool
    decreases e, 1int,
{
    &&& 0 <= i < docs.len()
    &&& match e.inner {
        Expression::Identifier(path) => docs[i] == DocumentView::Text(
            path_spelling(src, path.inner.0@, 0, path.inner.0@.len() as int),
        ),
        Expression::UnaryOperator(op, inner) => docs[i] matches DocumentView::List(l) && l.len() == 2
            && l[0].0 < docs.len() && docs[l[0].0 as int] == DocumentView::Text(unary_text(op))
            && operand_doc(src, docs, l[1].0 as int, *inner),
        Expression::BinaryOperator(left, op, right) => docs[i] matches DocumentView::List(l) && l.len()
            == 3 && l[1].0 < docs.len() && docs[l[1].0 as int] == DocumentView::Text(
            seq![' '] + binary_text(op) + seq![' '],
        ) && operand_doc(src, docs, l[0].0 as int, *left) && operand_doc(
            src,
            docs,
            l[2].0 as int,
            *right,
        ),
        Expression::Parenthesized(inner) => docs[i] matches DocumentView::List(l) && l.len() == 3
            && l[0].0 < docs.len() && docs[l[0].0 as int] == DocumentView::Text(seq!['(']) && l[2].0
            < docs.len() && docs[l[2].0 as int] == DocumentView::Text(seq![')']) && operand_doc(
            src,
            docs,
            l[1].0 as int,
            *inner,
        ),
        Expression::Incomplete(_) => docs[i] == DocumentView::Text(Seq::empty()),
        Expression::Index(_, _) => docs[i] == DocumentView::Text(Seq::empty()),
        Expression::StaticUnreachable => docs[i] == DocumentView::Text(Seq::empty()),
        Expression::StageValid => docs[i] == DocumentView::Text("stage.valid"@),
        Expression::StageReady => docs[i] == DocumentView::Text("stage.ready"@),
        Expression::BoolLiteral(value) => docs[i] == DocumentView::Text(
            if value {
                "true"@
            } else {
                "false"@
            },
        ),
        Expression::TriLiteral(bit) => docs[i] == DocumentView::Text(
            match bit {
                BitLiteral::Low => "LOW"@,
                BitLiteral::High => "HIGH"@,
                BitLiteral::HighImp => "HIGHIMP"@,
            },
        ),
        Expression::StrLiteral(value) => docs[i] == DocumentView::Verbatim(
            seq!['"'] + value@ + seq!['"'],
        ),
        Expression::IntLiteral { negative, .. } => negative ==> (docs[i] matches DocumentView::List(l)
            && l.len() == 2 && text_at(docs, l, 0, "-"@)),
        Expression::ArrayShorthandLiteral(element, amount) => docs[i] matches DocumentView::List(l)
            && l.len() == 6 && text_at(docs, l, 0, "["@) && operand_at(src, docs, l, 1, *element)
            && text_at(docs, l, 2, ";"@) && text_at(docs, l, 3, " "@) && operand_at(
            src,
            docs,
            l,
            4,
            *amount,
        ) && text_at(docs, l, 5, "]"@),
        Expression::RangeIndex { target, start, end } => docs[i] matches DocumentView::List(l)
            && l.len() == 4 + (if start is Some {
            1int
        } else {
            0int
        }) + (if end is Some {
            1int
        } else {
            0int
        }) && operand_at(src, docs, l, 0, *target) && text_at(docs, l, 1, "["@) && (
        start matches Some(x) ==> operand_at(src, docs, l, 2, *x)) && text_at(
            docs,
            l,
            if start is Some {
                3
            } else {
                2
            },
            ".."@,
        ) && (end matches Some(y) ==> operand_at(
            src,
            docs,
            l,
            if start is Some {
                4
            } else {
                3
            },
            *y,
        )) && text_at(docs, l, l.len() - 1, "]"@),
        Expression::TupleIndex { target, .. } => docs[i] matches DocumentView::List(l) && l.len() == 3
            && operand_at(src, docs, l, 0, *target) && text_at(docs, l, 1, "."@),
        Expression::FieldAccess(parent, field) => docs[i] matches DocumentView::List(l) && l.len() == 2
            && operand_at(src, docs, l, 0, *parent) && text_at(
            docs,
            l,
            1,
            "."@ + identifier_spelling(src, field),
        ),
        Expression::TypeCast(target, _) => docs[i] matches DocumentView::List(l) && l.len() == 3
            && operand_at(src, docs, l, 0, *target) && text_at(docs, l, 1, " as "@),
        Expression::LabelAccess { label, field } => docs[i] matches DocumentView::List(l) && l.len()
            == 3 && text_at(docs, l, 0, "@"@) && text_at(
            docs,
            l,
            1,
            path_spelling(src, label.inner.0@, 0, label.inner.0@.len() as int),
        ) && text_at(docs, l, 2, "."@ + identifier_spelling(src, field)),
        Expression::If { cond, on_true, on_false } => docs[i] matches DocumentView::List(l) && l.len()
            == 6 && text_at(docs, l, 0, "if "@) && operand_at(src, docs, l, 1, *cond) && text_at(
            docs,
            l,
            2,
            " "@,
        ) && operand_at(src, docs, l, 3, *on_true) && text_at(docs, l, 4, " else "@) && operand_at(
            src,
            docs,
            l,
            5,
            *on_false,
        ),
        Expression::TypeLevelIf { .. } => docs[i] matches DocumentView::List(l) && l.len() == 2
            && text_at(docs, l, 0, "gen "@),
        Expression::Unsafe(_) => docs[i] matches DocumentView::List(l) && l.len() == 2 && text_at(
            docs,
            l,
            0,
            "unsafe "@,
        ),
        Expression::Call { kind, callee, turbofish, .. } => {
            let t = if turbofish is Some {
                1int
            } else {
                0int
            };
            docs[i] matches DocumentView::List(l) && l.len() == call_kind_len(kind) + 2 + t && call_kind_shape(
                docs,
                l,
                0,
                kind,
            ) && text_at(
                docs,
                l,
                l.len() - 2 - t,
                path_spelling(src, callee.inner.0@, 0, callee.inner.0@.len() as int),
            )
        },
        Expression::MethodCall { target, name, kind, turbofish, .. } => {
            let t = if turbofish is Some {
                1int
            } else {
                0int
            };
            docs[i] matches DocumentView::List(l) && l.len() == call_kind_len(kind) + 4 + t && operand_at(src, docs, l, 0, *target)
                && text_at(docs, l, 1, "."@) && call_kind_shape(docs, l, 2, kind) && text_at(
                docs,
                l,
                l.len() - 2 - t,
                identifier_spelling(src, name),
            )
        },
        _ => true,
    }
}

/// The `k`th index of `l` names the text `text` in `docs`.
pub open spec fn text_at(docs: Seq<DocumentView>, l: Seq<DocumentIdx>, k: int, text: Seq<char>) -> bool {
    0 <= k < l.len() && names(docs, l[k], DocumentView::Text(text))
}

/// The `k`th index of `l` names the operand `e` laid out as
/// [`operand_doc`] says.
pub open spec fn operand_at(
    src: Seq<u8>,
    docs: Seq<DocumentView>,
    l: Seq<DocumentIdx>,
    k: int,
    e: Loc<Expression>,
) -> bool
    decreases e, 4int,
{
    0 <= k < l.len() && operand_doc(src, docs, l[k].0 as int, e)
}

/// The document at `i` is the expression `e` laid out as
/// [`expression_doc`] says, possibly after its leading comments (a list
/// ending in it, nested one level when a comment has a line of its own).
pub open spec fn operand_doc(src: Seq<u8>, docs: Seq<DocumentView>, i: int, e: Loc<Expression>) -> bool
    decreases e, 3int,
{
    &&& 0 <= i < docs.len()
    &&& {
        ||| expression_doc(src, docs, i, e)
        ||| docs[i] matches DocumentView::List(l) && l.len() > 0 && expression_doc(
            src,
            docs,
            l.last().0 as int,
            e,
        )
        ||| docs[i] matches DocumentView::Nest(b, _) && 0 <= b.0 < docs.len() && nested_last_doc(
            src,
            docs,
            b.0 as int,
            e,
        )
    }
}

/// The document at `b` is a list ending in the expression `e`, laid out as
/// [`expression_doc`] says.
pub open spec fn nested_last_doc(src: Seq<u8>, docs: Seq<DocumentView>, b: int, e: Loc<Expression>) -> bool
    decreases e, 2int,
{
    docs[b] matches DocumentView::List(l) && l.len() > 0 && expression_doc(src, docs, l.last().0 as int, e)
}

/// The shape of a built expression stays as the documents grow.
pub proof fn lemma_expression_doc_grows(
    src: Seq<u8>,
    docs: Seq<DocumentView>,
    grown: Seq<DocumentView>,
    i: int,
    e: Loc<Expression>,
)
    requires
        expression_doc(src, docs, i, e),
        docs.len() <= grown.len(),
        forall|k: int| 0 <= k < docs.len() ==> #[trigger] grown[k] == docs[k],
    ensures
        expression_doc(src, grown, i, e),
    decreases e, 1int,
{
    assert(grown[i] == docs[i]);
    if docs[i] is List {
        let l = docs[i]->List_0;
        assert forall|k: int| 0 <= k < l.len() && l[k].0 < docs.len() implies #[trigger] grown[l[k].0 as int]
            == docs[l[k].0 as int] by {}
    }
    match e.inner {
        Expression::UnaryOperator(op, inner) => {
            let l = docs[i]->List_0;
            lemma_operand_doc_grows(src, docs, grown, l[1].0 as int, *inner);
        },
        Expression::BinaryOperator(left, op, right) => {
            let l = docs[i]->List_0;
            lemma_operand_doc_grows(src, docs, grown, l[0].0 as int, *left);
            lemma_operand_doc_grows(src, docs, grown, l[2].0 as int, *right);
        },
        Expression::Parenthesized(inner) => {
            let l = docs[i]->List_0;
            lemma_operand_doc_grows(src, docs, grown, l[1].0 as int, *inner);
        },
        Expression::ArrayShorthandLiteral(element, amount) => {
            let l = docs[i]->List_0;
            lemma_operand_doc_grows(src, docs, grown, l[1].0 as int, *element);
            lemma_operand_doc_grows(src, docs, grown, l[4].0 as int, *amount);
        },
        Expression::RangeIndex { target, start, end } => {
            let l = docs[i]->List_0;
            lemma_operand_doc_grows(src, docs, grown, l[0].0 as int, *target);
            if let Some(x) = start {
                lemma_operand_doc_grows(src, docs, grown, l[2].0 as int, *x);
            }
            if let Some(y) = end {
                let k: int = if start is Some {
                    4
                } else {
                    3
                };
                lemma_operand_doc_grows(src, docs, grown, l[k].0 as int, *y);
            }
        },
        Expression::TupleIndex { target, .. } => {
            let l = docs[i]->List_0;
            lemma_operand_doc_grows(src, docs, grown, l[0].0 as int, *target);
        },
        Expression::FieldAccess(parent, _) => {
            let l = docs[i]->List_0;
            lemma_operand_doc_grows(src, docs, grown, l[0].0 as int, *parent);
        },
        Expression::TypeCast(target, _) => {
            let l = docs[i]->List_0;
            lemma_operand_doc_grows(src, docs, grown, l[0].0 as int, *target);
        },
        Expression::MethodCall { target, .. } => {
            let l = docs[i]->List_0;
            lemma_operand_doc_grows(src, docs, grown, l[0].0 as int, *target);
        },
        Expression::If { cond, on_true, on_false } => {
            let l = docs[i]->List_0;
            lemma_operand_doc_grows(src, docs, grown, l[1].0 as int, *cond);
            lemma_operand_doc_grows(src, docs, grown, l[3].0 as int, *on_true);
            lemma_operand_doc_grows(src, docs, grown, l[5].0 as int, *on_false);
        },
        _ => {},
    }
}

/// [`lemma_expression_doc_grows`] for an operand.
pub proof fn lemma_operand_doc_grows(
    src: Seq<u8>,
    docs: Seq<DocumentView>,
    grown: Seq<DocumentView>,
    i: int,
    e: Loc<Expression>,
)
    requires
        operand_doc(src, docs, i, e),
        docs.len() <= grown.len(),
        forall|k: int| 0 <= k < docs.len() ==> #[trigger] grown[k] == docs[k],
    ensures
        operand_doc(src, grown, i, e),
    decreases e, 3int,
{
    assert(grown[i] == docs[i]);
    if expression_doc(src, docs, i, e) {
        lemma_expression_doc_grows(src, docs, grown, i, e);
    } else if docs[i] is List && docs[i]->List_0.len() > 0 && expression_doc(src, docs, docs[i]->List_0.last().0 as int, e) {
        lemma_expression_doc_grows(src, docs, grown, docs[i]->List_0.last().0 as int, e);
    } else {
        let b = docs[i]->Nest_0;
        assert(grown[b.0 as int] == docs[b.0 as int]);
        lemma_expression_doc_grows(src, docs, grown, docs[b.0 as int]->List_0.last().0 as int, e);
    }
}

/// `idx` names the document `view` in `docs`.
pub open spec fn names(docs: Seq<DocumentView>, idx: DocumentIdx, view: DocumentView) -> bool {
    idx.0 < docs.len() && docs[idx.0 as int] == view
}

/// `items` joined by `", "`.
pub open spec fn comma_joined(items: Seq<String>) -> Seq<char>
    decreases items.len(),
{
    if items.len() == 0 {
        Seq::empty()
    } else if items.len() == 1 {
        items[0]@
    } else {
        comma_joined(items.drop_last()) + ", "@ + items.last()@
    }
}

/// The entries of `#[verilog_attrs(..)]`: each key, with ` = ` and its
/// quoted value where it has one, separated by `, `.
pub open spec fn verilog_entry_docs(src: Seq<u8>, entries: Seq<VerilogAttr>) -> Seq<DocumentView>
    decreases entries.len(),
{
    if entries.len() == 0 {
        Seq::empty()
    } else {
        let entry = entries.last();
        verilog_entry_docs(src, entries.drop_last()) + (if entries.len() > 1 {
            seq![DocumentView::Text(", "@)]
        } else {
            Seq::empty()
        }) + seq![DocumentView::Text(identifier_spelling(src, entry.0))] + match entry.1 {
            Some(value) => seq![
                DocumentView::Text(" = "@),
                DocumentView::Verbatim(seq!['"'] + value@ + seq!['"']),
            ],
            None => Seq::empty(),
        }
    }
}

/// The document at `i` is the attribute `attribute` as it prints:
/// `///` and its text for a doc comment, and the `#[..]` spelling of the
/// others, with string values quoted as in the source.
pub open spec fn attribute_doc(src: Seq<u8>, docs: Seq<DocumentView>, i: int, attribute: Attribute) -> bool {
    &&& 0 <= i < docs.len()
    &&& match attribute {
        Attribute::Optimize { passes } => docs[i] == DocumentView::Text(
            "#[optimize("@ + comma_joined(passes@) + ")]"@,
        ),
        Attribute::NoMangle { all } => docs[i] == DocumentView::Text(
            if all {
                "#[no_mangle(all)]"@
            } else {
                "#[no_mangle]"@
            },
        ),
        Attribute::Fsm { state } => docs[i] == DocumentView::Text(
            match state {
                Some(state) => "#[fsm("@ + identifier_spelling(src, state) + ")]"@,
                None => "#[fsm]"@,
            },
        ),
        Attribute::Documentation { content } => docs[i] == DocumentView::Text("///"@ + content@),
        Attribute::SurferTranslator(name) => docs[i] matches DocumentView::List(l) && l.len() == 3
            && text_at(docs, l, 0, "#[surfer_translator("@) && names(
            docs,
            l[1],
            DocumentView::Verbatim(seq!['"'] + name@ + seq!['"']),
        ) && text_at(docs, l, 2, ")]"@),
        Attribute::SpadecParenSugar => docs[i] == DocumentView::Text("#[spadec_paren_sugar]"@),
        Attribute::Inline => docs[i] == DocumentView::Text("#[inline]"@),
        Attribute::Deprecated { since, note } => match (since, note) {
            (None, None) => docs[i] == DocumentView::Text("#[deprecated]"@),
            (None, Some(note)) => docs[i] matches DocumentView::List(l) && l.len() == 3 && text_at(
                docs,
                l,
                0,
                "#[deprecated = "@,
            ) && names(docs, l[1], DocumentView::Verbatim(seq!['"'] + note@ + seq!['"'])) && text_at(
                docs,
                l,
                2,
                "]"@,
            ),
            (Some(since), None) => docs[i] matches DocumentView::List(l) && l.len() == 3 && text_at(
                docs,
                l,
                0,
                "#[deprecated(since = "@,
            ) && names(docs, l[1], DocumentView::Verbatim(seq!['"'] + since@ + seq!['"'])) && text_at(
                docs,
                l,
                2,
                ")]"@,
            ),
            (Some(since), Some(note)) => docs[i] matches DocumentView::List(l) && l.len() == 5
                && text_at(docs, l, 0, "#[deprecated(since = "@) && names(
                docs,
                l[1],
                DocumentView::Verbatim(seq!['"'] + since@ + seq!['"']),
            ) && text_at(docs, l, 2, ", note = "@) && names(
                docs,
                l[3],
                DocumentView::Verbatim(seq!['"'] + note@ + seq!['"']),
            ) && text_at(docs, l, 4, ")]"@),
        },
        Attribute::VerilogAttrs { entries } => docs[i] matches DocumentView::List(l) && appends(
            l,
            Seq::empty(),
            docs,
            seq![DocumentView::Text("#[verilog_attrs("@)] + verilog_entry_docs(src, entries@) + seq![
                DocumentView::Text(")]"@),
            ],
        ),
    }
}

/// Skipping leading line breaks leaves a list that is empty or starts
/// with something else.
pub proof fn lemma_skip_leading_newlines(docs: Seq<DocumentView>, list: Seq<DocumentIdx>)
    requires
        all_below(list, docs.len() as int),
    ensures
        skip_leading_newlines(docs, list).len() == 0 || docs[skip_leading_newlines(docs, list)[0].0 as int]
            != DocumentView::Newline,
        all_below(skip_leading_newlines(docs, list), docs.len() as int),
    decreases list.len(),
{
    if list.len() > 0 && 0 <= list[0].0 < docs.len() && docs[list[0].0 as int] == DocumentView::Newline {
        assert forall|k: int| 0 <= k < list.drop_first().len() implies (#[trigger] list.drop_first()[k]).0
            < docs.len() by {
            assert(list.drop_first()[k] == list[k + 1]);
        }
        lemma_skip_leading_newlines(docs, list.drop_first());
    }
}

/// Dropping doubled trailing line breaks keeps the first entry of a list
/// that has one.
pub proof fn lemma_drop_doubled_keeps_first(docs: Seq<DocumentView>, list: Seq<DocumentIdx>)
    requires
        list.len() > 0,
    ensures
        drop_doubled_trailing(docs, list).len() > 0,
        drop_doubled_trailing(docs, list)[0] == list[0],
    decreases list.len(),
{
    if list.len() >= 2 && 0 <= list.last().0 < docs.len() && 0 <= list[list.len() - 2].0 < docs.len()
        && docs[list.last().0 as int] == DocumentView::Newline && docs[list[list.len() - 2].0 as int]
        == DocumentView::Newline {
        lemma_drop_doubled_keeps_first(docs, list.drop_last());
    }
}

/// The line a module member ends on: that of its last trailing comment,
/// else that of its own end.
pub open spec fn member_end_line(
    layout: CommentLayout,
    members: Seq<Item>,
    trailings: Seq<Seq<CommentToPrint>>,
    i: int,
) -> int {
    if trailings[i].len() > 0 {
        trailings[i].last().end_line as int
    } else {
        layout.line_of(item_span(members[i]).end as int)
    }
}

/// The first `n` members of a module, given the leading comments each
/// claimed, the document each built to and the trailing comments each
/// claimed: consecutive members are one line break apart, with one blank
/// line more where the source has a line between the first one's end (or
/// its last trailing comment) and the next one's start (or its first
/// leading comment); each member follows its leading comments and is
/// followed by its trailing ones.
pub open spec fn members_docs(
    layout: CommentLayout,
    members: Seq<Item>,
    leadings: Seq<Seq<CommentToPrint>>,
    items: Seq<DocumentView>,
    trailings: Seq<Seq<CommentToPrint>>,
    n: int,
) -> Seq<DocumentView>
    decreases n,
{
    if n <= 0 {
        Seq::empty()
    } else {
        let i = n - 1;
        let line = layout.line_of(item_span(members[i]).start as int);
        members_docs(layout, members, leadings, items, trailings, n - 1) + (if i > 0 {
            seq![DocumentView::Newline] + gap_before(
                Some(member_end_line(layout, members, trailings, i - 1) as usize),
                effective_start(leadings[i], line),
            )
        } else {
            Seq::empty()
        }) + leading_docs(leadings[i], line) + seq![items[i]] + trailing_docs(trailings[i])
    }
}

/// [`members_docs`] one member further.
proof fn lemma_members_docs_step<'c>(
    layout: CommentLayout,
    members: Seq<Item>,
    leadings: Seq<Seq<CommentToPrint<'c>>>,
    items: Seq<DocumentView>,
    trailings: Seq<Seq<CommentToPrint<'c>>>,
    i: int,
    leading: Seq<CommentToPrint<'c>>,
    item: DocumentView,
    trailing: Seq<CommentToPrint<'c>>,
)
    requires
        0 <= i,
        leadings.len() == i && items.len() == i && trailings.len() == i,
    ensures
        members_docs(layout, members, leadings.push(leading), items.push(item), trailings.push(trailing), i + 1)
            == members_docs(layout, members, leadings, items, trailings, i) + (if i > 0 {
            seq![DocumentView::Newline] + gap_before(
                Some(member_end_line(layout, members, trailings, i - 1) as usize),
                effective_start(leading, layout.line_of(item_span(members[i]).start as int)),
            )
        } else {
            Seq::empty()
        }) + leading_docs(leading, layout.line_of(item_span(members[i]).start as int)) + seq![item]
            + trailing_docs(trailing),
{
    let l2 = leadings.push(leading);
    let i2 = items.push(item);
    let t2 = trailings.push(trailing);
    assert forall|k: int| 0 <= k < i implies #[trigger] l2[k] == leadings[k] by {}
    assert forall|k: int| 0 <= k < i implies #[trigger] i2[k] == items[k] by {}
    assert forall|k: int| 0 <= k < i implies #[trigger] t2[k] == trailings[k] by {}
    lemma_members_docs_prefix(layout, members, leadings, items, trailings, l2, i2, t2, i);
    if i > 0 {
        assert(t2[i - 1] == trailings[i - 1]);
        assert(member_end_line(layout, members, t2, i - 1) == member_end_line(layout, members, trailings, i - 1));
    }
    assert(l2[i] == leading);
    assert(i2[i] == item);
    assert(t2[i] == trailing);
}

/// [`members_docs`] of the first `n` members reads only the first `n`
/// entries of its sequences.
proof fn lemma_members_docs_prefix(
    layout: CommentLayout,
    members: Seq<Item>,
    l1: Seq<Seq<CommentToPrint>>,
    i1: Seq<DocumentView>,
    t1: Seq<Seq<CommentToPrint>>,
    l2: Seq<Seq<CommentToPrint>>,
    i2: Seq<DocumentView>,
    t2: Seq<Seq<CommentToPrint>>,
    n: int,
)
    requires
        0 <= n <= l1.len() <= l2.len(),
        n <= i1.len() <= i2.len(),
        n <= t1.len() <= t2.len(),
        forall|k: int| 0 <= k < n ==> #[trigger] l2[k] == l1[k],
        forall|k: int| 0 <= k < n ==> #[trigger] i2[k] == i1[k],
        forall|k: int| 0 <= k < n ==> #[trigger] t2[k] == t1[k],
    ensures
        members_docs(layout, members, l1, i1, t1, n) == members_docs(layout, members, l2, i2, t2, n),
    decreases n,
{
    if n > 0 {
        lemma_members_docs_prefix(layout, members, l1, i1, t1, l2, i2, t2, n - 1);
        assert(l2[n - 1] == l1[n - 1]);
        assert(i2[n - 1] == i1[n - 1]);
        assert(t2[n - 1] == t1[n - 1]);
        if n > 1 {
            assert(t2[n - 2] == t1[n - 2]);
        }
    }
}

/// The layout of a module's root: its documentation, its members (with
/// `leadings`, `items` and `trailings` as for [`members_docs`]) and the
/// comments `rest` that end it, named by `list` in `docs`; the root
/// document is that list without leading line breaks and without doubled
/// trailing ones.
pub open spec fn root_laid_out<'c>(
    layout: CommentLayout,
    root: Loc<ModuleBody>,
    store: Seq<DocumentView>,
    root_doc: DocumentView,
    docs: Seq<DocumentView>,
    list: Seq<DocumentIdx>,
    leadings: Seq<Seq<CommentToPrint<'c>>>,
    items: Seq<DocumentView>,
    trailings: Seq<Seq<CommentToPrint<'c>>>,
    rest: Seq<CommentToPrint<'c>>,
) -> bool {
    let members = root.inner.members@;
    let n = members.len() as int;
    &&& docs.len() <= store.len()
    &&& forall|k: int| 0 <= k < docs.len() ==> #[trigger] store[k] == docs[k]
    &&& leadings.len() == n && items.len() == n && trailings.len() == n
    &&& root_doc == DocumentView::List(drop_doubled_trailing(docs, skip_leading_newlines(docs, list)))
    &&& appends(
        list,
        Seq::empty(),
        docs,
        module_docs(root.inner.documentation@, n > 0) + members_docs(layout, members, leadings, items, trailings, n)
            + scope_trailing_docs(
            rest,
            if n > 0 {
                Some(member_end_line(layout, members, trailings, n - 1) as usize)
            } else {
                None
            },
        ),
    )
}

/// The document at `i` has the shape the builder gives the statement `s`:
/// a `let` binding, a `set` and an expression statement print their parts
/// in source order and end in `;`, as does a reported `assert`; a label
/// prints `'` and its name; a type declaration stands alone.
pub open spec fn statement_doc(src: Seq<u8>, docs: Seq<DocumentView>, i: int, s: Loc<Statement>, indent: isize) -> bool {
    &&& 0 <= i < docs.len()
    &&& docs[i] matches DocumentView::List(l) && match s.inner {
        Statement::Label(name) => l.len() == 1 && text_at(docs, l, 0, "'"@ + identifier_spelling(src, name)),
        Statement::Binding(binding) => l.len() == 6 + (if binding.ty is Some {
            2int
        } else {
            0int
        }) && text_at(docs, l, 1, "let "@) && text_at(docs, l, l.len() - 3, " = "@) && operand_at(
            src,
            docs,
            l,
            l.len() - 2,
            binding.value,
        ) && text_at(docs, l, l.len() - 1, ";"@) && (binding.ty is Some ==> text_at(
            docs,
            l,
            3,
            ": "@,
        )),
        Statement::SetValue { target, value } => l.len() == 5 && text_at(docs, l, 0, "set "@)
            && operand_at(src, docs, l, 1, target) && text_at(docs, l, 2, " = "@) && operand_at(
            src,
            docs,
            l,
            3,
            value,
        ) && text_at(docs, l, 4, ";"@),
        Statement::Expression(expression, _) => l.len() == 3 && operand_at(src, docs, l, 1, expression)
            && text_at(docs, l, 2, ";"@),
        Statement::Assert(_) => l.len() == 2 && text_at(docs, l, 0, Seq::empty()) && text_at(
            docs,
            l,
            1,
            ";"@,
        ),
        Statement::Register(register) => l.len() == 9 + (if register.inner.value_type is Some {
            2int
        } else {
            0int
        }) + (if register.inner.reset is Some {
            5int
        } else {
            0int
        }) + (if register.inner.initial is Some {
            3int
        } else {
            0int
        }) && register_parts(src, docs, l, register.inner, indent) && text_at(docs, l, l.len() - 1, ";"@),
        Statement::Type(declaration) => l.len() == 1 && type_declaration_doc(
            src,
            docs,
            l[0].0 as int,
            declaration.inner,
            indent,
        ),
        _ => l.len() > 0 && text_at(docs, l, l.len() - 1, ";"@),
    }
}

/// The statements `statements` laid out in `body`, in order, each as
/// [`statement_doc`] says.
pub open spec fn statements_in(
    src: Seq<u8>,
    docs: Seq<DocumentView>,
    body: Seq<DocumentIdx>,
    statements: Seq<Loc<Statement>>,
    indent: isize,
) -> bool {
    exists|stmts: Seq<DocumentIdx>|
        #![trigger in_order(stmts, body)]
        stmts.len() == statements.len() && in_order(stmts, body) && forall|k: int|
            0 <= k < statements.len() ==> #[trigger] statement_doc(src, docs, stmts[k].0 as int, statements[k], indent)
}

/// The layout of a block at `i`: `{`, then, when it holds statements,
/// a line break and a body nested by `indent` holding them in order
/// (with their comments and blank lines between), and `}`.
pub open spec fn block_doc(src: Seq<u8>, docs: Seq<DocumentView>, i: int, block: Block, indent: isize) -> bool {
    &&& 0 <= i < docs.len()
    &&& docs[i] matches DocumentView::List(l) && l.len() >= 2 && text_at(docs, l, 0, "{"@) && text_at(
        docs,
        l,
        l.len() - 1,
        "}"@,
    ) && (block.statements@.len() > 0 ==> l.len() >= 4 && l[l.len() - 2].0 < docs.len() && (docs[l[l.len()
        - 2].0 as int] matches DocumentView::Nest(body, by) && by == indent && body.0 < docs.len() && (
    docs[body.0 as int] matches DocumentView::List(bl) && statements_in(src, docs, bl, block.statements@, indent))))
}

/// A type declaration's layout stays what it is as more documents are
/// built.
proof fn lemma_type_declaration_doc_grows(
    src: Seq<u8>,
    docs: Seq<DocumentView>,
    grown: Seq<DocumentView>,
    i: int,
    declaration: TypeDeclaration,
    indent: isize,
)
    requires
        type_declaration_doc(src, docs, i, declaration, indent),
        keeps(docs, grown),
    ensures
        type_declaration_doc(src, grown, i, declaration, indent),
{
    let a = if declaration.visibility.inner is Implicit {
        0int
    } else {
        1int
    };
    let p = if declaration.generic_args is Some {
        1int
    } else {
        0int
    };
    assert(grown[i] == docs[i]);
    let l = docs[i]->List_0;
    assert forall|k: int| 0 <= k < l.len() && l[k].0 < docs.len() implies #[trigger] grown[l[k].0 as int]
        == docs[l[k].0 as int] by {}
    if declaration.generic_args is Some {
        let params = declaration.generic_args->0;
        if params.inner@.len() > 0 {
            lemma_group_doc_grows(docs, grown, l[3 + a].0 as int, "<"@, ">"@, params.inner@.len() as int, indent);
        }
    }
    if declaration.kind is Enum {
        let e = declaration.kind->Enum_0;
        if e.inner.variants@.len() > 0 {
            let n = e.inner.variants@.len() as int;
            let (bodies, elements) = choose|bodies: GroupBodies, elements: Seq<DocumentIdx>|
                #![trigger group_holds_in_order(docs, bodies, elements, indent)]
                bodies.broken == l[4 + a + p] && elements.len() == n && group_holds_in_order(docs, bodies, elements, indent);
            lemma_group_holds_in_order_grows(docs, grown, bodies, elements, indent);
            assert(broken_body_of(grown, l[4 + a + p], n, indent));
        }
    }
}

/// A statement's layout stays what it is as more documents are built.
proof fn lemma_statement_doc_grows(
    src: Seq<u8>,
    docs: Seq<DocumentView>,
    grown: Seq<DocumentView>,
    i: int,
    s: Loc<Statement>,
    indent: isize,
)
    requires
        statement_doc(src, docs, i, s, indent),
        keeps(docs, grown),
    ensures
        statement_doc(src, grown, i, s, indent),
{
    assert(grown[i] == docs[i]);
    let l = docs[i]->List_0;
    assert forall|k: int| 0 <= k < l.len() && l[k].0 < docs.len() implies #[trigger] grown[l[k].0 as int]
        == docs[l[k].0 as int] by {}
    match s.inner {
        Statement::Binding(binding) => {
            lemma_operand_doc_grows(src, docs, grown, l[l.len() - 2].0 as int, binding.value);
        },
        Statement::SetValue { target, value } => {
            lemma_operand_doc_grows(src, docs, grown, l[1].0 as int, target);
            lemma_operand_doc_grows(src, docs, grown, l[3].0 as int, value);
        },
        Statement::Expression(expression, _) => {
            lemma_operand_doc_grows(src, docs, grown, l[1].0 as int, expression);
        },
        Statement::Type(declaration) => {
            lemma_type_declaration_doc_grows(src, docs, grown, l[0].0 as int, declaration.inner, indent);
        },
        Statement::Register(register) => {
            lemma_register_parts_keeps(src, docs, grown, l, l, register.inner, indent);
        },
        _ => {},
    }
}

/// The bodies of a comma group over the documents `elements`: the flat
/// one is their list printed flat, the broken one that same list followed
/// by a comma (and any comments left in the group), nested one level
/// between line breaks.
pub open spec fn group_bodies_shape(
    docs: Seq<DocumentView>,
    bodies: GroupBodies,
    elements: Seq<DocumentIdx>,
    indent: isize,
) -> bool {
    &&& bodies.flat.0 < docs.len()
    &&& docs[bodies.flat.0 as int] matches DocumentView::Flatten(c) && names(docs, c, DocumentView::List(elements))
        && broken_group_shape(docs, bodies.broken, c, indent)
}

/// The broken body of a comma group over the list `contents`: line
/// break, the list and a comma (and comments) nested by `indent`, line
/// break.
pub open spec fn broken_group_shape(
    docs: Seq<DocumentView>,
    broken: DocumentIdx,
    contents: DocumentIdx,
    indent: isize,
) -> bool {
    &&& broken.0 < docs.len()
    &&& docs[broken.0 as int] matches DocumentView::List(nl) && nl.len() >= 3 && names(
        docs,
        nl[nl.len() - 1],
        DocumentView::Newline,
    ) && names(docs, nl[nl.len() - 3], DocumentView::Newline) && nested_group_shape(
        docs,
        nl[nl.len() - 2],
        contents,
        indent,
    )
}

/// The nested part of a broken comma group: the list `contents`, then a
/// comma, nested by `indent`.
pub open spec fn nested_group_shape(
    docs: Seq<DocumentView>,
    nested: DocumentIdx,
    contents: DocumentIdx,
    indent: isize,
) -> bool {
    &&& nested.0 < docs.len()
    &&& docs[nested.0 as int] matches DocumentView::Nest(inner_doc, by) && by == indent && group_inner_shape(
        docs,
        inner_doc,
        contents,
    )
}

/// The list `contents` followed by a comma.
pub open spec fn group_inner_shape(docs: Seq<DocumentView>, inner_doc: DocumentIdx, contents: DocumentIdx) -> bool {
    &&& inner_doc.0 < docs.len()
    &&& docs[inner_doc.0 as int] matches DocumentView::List(inner) && inner.len() >= 2 && inner[0] == contents
        && text_at(docs, inner, 1, ","@)
}

/// The entries of `elements` occur in `list` in the same order, with
/// other entries (separators, comments, line breaks) between them.
pub open spec fn in_order(elements: Seq<DocumentIdx>, list: Seq<DocumentIdx>) -> bool
    decreases list.len(),
{
    if elements.len() == 0 {
        true
    } else if list.len() == 0 {
        false
    } else if elements.last() == list.last() {
        in_order(elements.drop_last(), list.drop_last())
    } else {
        in_order(elements, list.drop_last())
    }
}

/// Dropping the last element keeps the rest in order.
proof fn lemma_in_order_drop_last(elements: Seq<DocumentIdx>, list: Seq<DocumentIdx>)
    requires
        elements.len() > 0,
        in_order(elements, list),
    ensures
        in_order(elements.drop_last(), list),
    decreases list.len(),
{
    let e1 = elements.drop_last();
    let l1 = list.drop_last();
    if e1.len() > 0 {
        if elements.last() == list.last() {
            if e1.last() == list.last() {
                lemma_in_order_drop_last(e1, l1);
            }
        } else {
            lemma_in_order_drop_last(elements, l1);
            if e1.last() == list.last() {
                lemma_in_order_drop_last(e1, l1);
            }
        }
    }
}

/// Appending to the list keeps the elements in order.
proof fn lemma_in_order_push_other(elements: Seq<DocumentIdx>, list: Seq<DocumentIdx>, x: DocumentIdx)
    requires
        in_order(elements, list),
    ensures
        in_order(elements, list.push(x)),
{
    assert(list.push(x).drop_last() =~= list);
    if elements.len() > 0 && elements.last() == x {
        lemma_in_order_drop_last(elements, list);
    }
}

/// A list that starts with `before` keeps the elements in order.
proof fn lemma_in_order_extend(elements: Seq<DocumentIdx>, before: Seq<DocumentIdx>, after: Seq<DocumentIdx>)
    requires
        in_order(elements, before),
        before.len() <= after.len(),
        forall|j: int| 0 <= j < before.len() ==> #[trigger] after[j] == before[j],
    ensures
        in_order(elements, after),
    decreases after.len(),
{
    if after.len() == before.len() {
        assert(after =~= before);
    } else {
        let shorter = after.drop_last();
        lemma_in_order_extend(elements, before, shorter);
        lemma_in_order_push_other(elements, shorter, after.last());
        assert(shorter.push(after.last()) =~= after);
    }
}

/// An element added to both keeps the order.
proof fn lemma_in_order_push_both(elements: Seq<DocumentIdx>, list: Seq<DocumentIdx>, x: DocumentIdx)
    requires
        in_order(elements, list),
    ensures
        in_order(elements.push(x), list.push(x)),
{
    assert(elements.push(x).drop_last() =~= elements);
    assert(list.push(x).drop_last() =~= list);
}

/// Dropping a first entry that is none of the elements keeps them in
/// order.
proof fn lemma_in_order_drop_first(elements: Seq<DocumentIdx>, list: Seq<DocumentIdx>)
    requires
        in_order(elements, list),
        list.len() > 0,
        forall|k: int| 0 <= k < elements.len() ==> #[trigger] elements[k] != list[0],
    ensures
        in_order(elements, list.drop_first()),
    decreases list.len(),
{
    if elements.len() > 0 {
        if list.len() == 1 {
            assert(elements.last() == elements[elements.len() - 1]);
            assert(list.last() == list[0]);
            assert(list.drop_last().len() == 0);
            assert(!in_order(elements, list.drop_last()));
        } else {
            let rest = list.drop_first();
            assert(rest.last() == list.last());
            assert(rest.drop_last() =~= list.drop_last().drop_first());
            if elements.last() == list.last() {
                let e1 = elements.drop_last();
                assert forall|k: int| 0 <= k < e1.len() implies #[trigger] e1[k] != list.drop_last()[0] by {
                    assert(e1[k] == elements[k]);
                }
                lemma_in_order_drop_first(e1, list.drop_last());
                assert(in_order(elements, rest) == in_order(e1, rest.drop_last()));
            } else {
                assert forall|k: int| 0 <= k < elements.len() implies #[trigger] elements[k] != list.drop_last()[0] by {}
                lemma_in_order_drop_first(elements, list.drop_last());
                assert(in_order(elements, rest) == in_order(elements, rest.drop_last()));
            }
        }
    }
}

/// Entries that name line breaks are none of the `elements` when no
/// element names one.
pub open spec fn none_newline(docs: Seq<DocumentView>, elements: Seq<DocumentIdx>) -> bool {
    forall|k: int| 0 <= k < elements.len() ==> 0 <= (#[trigger] elements[k]).0 < docs.len() && docs[elements[k].0 as int] != DocumentView::Newline
}

proof fn lemma_in_order_skip_newlines(docs: Seq<DocumentView>, elements: Seq<DocumentIdx>, list: Seq<DocumentIdx>)
    requires
        in_order(elements, list),
        none_newline(docs, elements),
    ensures
        in_order(elements, skip_leading_newlines(docs, list)),
    decreases list.len(),
{
    if list.len() > 0 && 0 <= list[0].0 < docs.len() && docs[list[0].0 as int] == DocumentView::Newline {
        assert forall|k: int| 0 <= k < elements.len() implies #[trigger] elements[k] != list[0] by {}
        lemma_in_order_drop_first(elements, list);
        lemma_in_order_skip_newlines(docs, elements, list.drop_first());
    }
}

proof fn lemma_in_order_drop_doubled(docs: Seq<DocumentView>, elements: Seq<DocumentIdx>, list: Seq<DocumentIdx>)
    requires
        in_order(elements, list),
        none_newline(docs, elements),
    ensures
        in_order(elements, drop_doubled_trailing(docs, list)),
    decreases list.len(),
{
    if list.len() >= 2 && 0 <= list.last().0 < docs.len() && 0 <= list[list.len() - 2].0 < docs.len()
        && docs[list.last().0 as int] == DocumentView::Newline && docs[list[list.len() - 2].0 as int]
        == DocumentView::Newline {
        if elements.len() > 0 {
            assert(elements.last() == elements[elements.len() - 1]);
        }
        lemma_in_order_drop_doubled(docs, elements, list.drop_last());
    }
}

/// The bodies of a comma group whose flat body lists `elements` in order
/// (with the separators and comments between them), and whose broken
/// body nests that same list by `indent` between line breaks.
pub open spec fn group_holds_in_order(
    docs: Seq<DocumentView>,
    bodies: GroupBodies,
    elements: Seq<DocumentIdx>,
    indent: isize,
) -> bool {
    &&& bodies.flat.0 < docs.len()
    &&& docs[bodies.flat.0 as int] matches DocumentView::Flatten(c) && c.0 < docs.len() && broken_group_shape(
        docs,
        bodies.broken,
        c,
        indent,
    ) && (docs[c.0 as int] matches DocumentView::List(l) && in_order(elements, l))
}

/// `i` names `open`, a group's bodies and `close`, laid out as a group
/// wraps them: the broken body when a comment forces it, else the flat
/// body when it fits and the broken one when not.
pub open spec fn wrapped(docs: Seq<DocumentView>, i: int, open: Seq<char>, close: Seq<char>, bodies: GroupBodies) -> bool {
    &&& 0 <= i < docs.len()
    &&& if bodies.force {
        delimited(docs, i, open, bodies.broken, close)
    } else {
        docs[i] matches DocumentView::TryCatch(f, b) && delimited(docs, f.0 as int, open, bodies.flat, close)
            && delimited(docs, b.0 as int, open, bodies.broken, close)
    }
}

/// `i` names a group between `open` and `close` whose bodies hold `n`
/// elements in order.
pub open spec fn group_doc(
    docs: Seq<DocumentView>,
    i: int,
    open: Seq<char>,
    close: Seq<char>,
    n: int,
    indent: isize,
) -> bool {
    exists|bodies: GroupBodies, elements: Seq<DocumentIdx>|
        #![trigger group_holds_in_order(docs, bodies, elements, indent)]
        elements.len() == n && wrapped(docs, i, open, close, bodies) && group_holds_in_order(
            docs,
            bodies,
            elements,
            indent,
        )
}

/// `grown` keeps every document of `docs` at its index.
pub open spec fn keeps(docs: Seq<DocumentView>, grown: Seq<DocumentView>) -> bool {
    &&& docs.len() <= grown.len()
    &&& forall|k: int| 0 <= k < docs.len() ==> #[trigger] grown[k] == docs[k]
}

proof fn lemma_delimited_grows(
    docs: Seq<DocumentView>,
    grown: Seq<DocumentView>,
    i: int,
    open: Seq<char>,
    body: DocumentIdx,
    close: Seq<char>,
)
    requires
        delimited(docs, i, open, body, close),
        keeps(docs, grown),
    ensures
        delimited(grown, i, open, body, close),
{
    assert(grown[i] == docs[i]);
    let l = docs[i]->List_0;
    assert(grown[l[0].0 as int] == docs[l[0].0 as int]);
    assert(grown[l[2].0 as int] == docs[l[2].0 as int]);
}

proof fn lemma_group_holds_in_order_grows(
    docs: Seq<DocumentView>,
    grown: Seq<DocumentView>,
    bodies: GroupBodies,
    elements: Seq<DocumentIdx>,
    indent: isize,
)
    requires
        group_holds_in_order(docs, bodies, elements, indent),
        keeps(docs, grown),
    ensures
        group_holds_in_order(grown, bodies, elements, indent),
{
    assert(grown[bodies.flat.0 as int] == docs[bodies.flat.0 as int]);
    let c = docs[bodies.flat.0 as int]->Flatten_0;
    assert(grown[c.0 as int] == docs[c.0 as int]);
    assert(grown[bodies.broken.0 as int] == docs[bodies.broken.0 as int]);
    let nl = docs[bodies.broken.0 as int]->List_0;
    assert(grown[nl[nl.len() - 1].0 as int] == docs[nl[nl.len() - 1].0 as int]);
    assert(grown[nl[nl.len() - 3].0 as int] == docs[nl[nl.len() - 3].0 as int]);
    let nested = nl[nl.len() - 2];
    assert(grown[nested.0 as int] == docs[nested.0 as int]);
    let inner_doc = docs[nested.0 as int]->Nest_0;
    assert(grown[inner_doc.0 as int] == docs[inner_doc.0 as int]);
    let inner = docs[inner_doc.0 as int]->List_0;
    assert(grown[inner[1].0 as int] == docs[inner[1].0 as int]);
}

/// A group stays what it is as more documents are built.
proof fn lemma_group_doc_grows(
    docs: Seq<DocumentView>,
    grown: Seq<DocumentView>,
    i: int,
    open: Seq<char>,
    close: Seq<char>,
    n: int,
    indent: isize,
)
    requires
        group_doc(docs, i, open, close, n, indent),
        keeps(docs, grown),
    ensures
        group_doc(grown, i, open, close, n, indent),
{
    let (bodies, elements) = choose|bodies: GroupBodies, elements: Seq<DocumentIdx>|
        #![trigger group_holds_in_order(docs, bodies, elements, indent)]
        elements.len() == n && wrapped(docs, i, open, close, bodies) && group_holds_in_order(
            docs,
            bodies,
            elements,
            indent,
        );
    lemma_group_holds_in_order_grows(docs, grown, bodies, elements, indent);
    assert(grown[i] == docs[i]);
    if bodies.force {
        lemma_delimited_grows(docs, grown, i, open, bodies.broken, close);
    } else {
        let f = docs[i]->TryCatch_0;
        let b = docs[i]->TryCatch_1;
        lemma_delimited_grows(docs, grown, f.0 as int, open, bodies.flat, close);
        lemma_delimited_grows(docs, grown, b.0 as int, open, bodies.broken, close);
    }
    assert(wrapped(grown, i, open, close, bodies));
}

/// `i` names `(`, a parameter body, `)` and an output: `" -> "` and the
/// type when the unit has one, nothing otherwise.
pub open spec fn parenthesized(docs: Seq<DocumentView>, i: int, has_output: bool) -> bool {
    &&& 0 <= i < docs.len()
    &&& docs[i] matches DocumentView::List(b) && b.len() == 4 && text_at(docs, b, 0, "("@) && text_at(
        docs,
        b,
        2,
        ")"@,
    ) && b[3].0 < docs.len() && output_shape(docs, docs[b[3].0 as int], has_output)
}

/// `" -> "` and the output type, or nothing for a unit without one.
pub open spec fn output_parts(docs: Seq<DocumentView>, output: DocumentView, has_output: bool) -> bool {
    if has_output {
        output matches DocumentView::List(parts) && parts.len() == 2 && text_at(docs, parts, 0, " -> "@)
    } else {
        output == DocumentView::List(Seq::empty())
    }
}

/// The output part of a signature, possibly flattened.
pub open spec fn output_shape(docs: Seq<DocumentView>, output: DocumentView, has_output: bool) -> bool {
    ||| output_parts(docs, output, has_output)
    ||| output matches DocumentView::Flatten(inner) && inner.0 < docs.len() && output_parts(
        docs,
        docs[inner.0 as int],
        has_output,
    )
}

proof fn lemma_output_shape_grows(docs: Seq<DocumentView>, grown: Seq<DocumentView>, output: DocumentView, has_output: bool)
    requires
        output_shape(docs, output, has_output),
        keeps(docs, grown),
    ensures
        output_shape(grown, output, has_output),
{
    if output_parts(docs, output, has_output) {
        if has_output {
            let parts = output->List_0;
            assert(grown[parts[0].0 as int] == docs[parts[0].0 as int]);
        }
    } else {
        let inner = output->Flatten_0;
        assert(grown[inner.0 as int] == docs[inner.0 as int]);
        if has_output {
            let parts = docs[inner.0 as int]->List_0;
            assert(grown[parts[0].0 as int] == docs[parts[0].0 as int]);
        }
    }
}

proof fn lemma_parenthesized_grows(docs: Seq<DocumentView>, grown: Seq<DocumentView>, i: int, has_output: bool)
    requires
        parenthesized(docs, i, has_output),
        keeps(docs, grown),
    ensures
        parenthesized(grown, i, has_output),
{
    assert(grown[i] == docs[i]);
    let b = docs[i]->List_0;
    assert(grown[b[0].0 as int] == docs[b[0].0 as int]);
    assert(grown[b[2].0 as int] == docs[b[2].0 as int]);
    assert(grown[b[3].0 as int] == docs[b[3].0 as int]);
    lemma_output_shape_grows(docs, grown, docs[b[3].0 as int], has_output);
}

proof fn lemma_signature_shape_grows(docs: Seq<DocumentView>, grown: Seq<DocumentView>, i: int, has_output: bool)
    requires
        signature_shape(docs, i, has_output),
        keeps(docs, grown),
    ensures
        signature_shape(grown, i, has_output),
{
    if parenthesized(docs, i, has_output) {
        lemma_parenthesized_grows(docs, grown, i, has_output);
    } else {
        assert(grown[i] == docs[i]);
        let all_flat = docs[i]->TryCatch_0;
        let fallback = docs[i]->TryCatch_1;
        assert(grown[fallback.0 as int] == docs[fallback.0 as int]);
        let flat = docs[fallback.0 as int]->TryCatch_0;
        let broken = docs[fallback.0 as int]->TryCatch_1;
        lemma_parenthesized_grows(docs, grown, all_flat.0 as int, has_output);
        lemma_parenthesized_grows(docs, grown, flat.0 as int, has_output);
        lemma_parenthesized_grows(docs, grown, broken.0 as int, has_output);
    }
}

/// The signature of a unit: its parameters in parentheses and its
/// output, either laid out one way or as a choice of flat and broken
/// layouts.
pub open spec fn signature_shape(docs: Seq<DocumentView>, i: int, has_output: bool) -> bool {
    ||| parenthesized(docs, i, has_output)
    ||| 0 <= i < docs.len() && (docs[i] matches DocumentView::TryCatch(all_flat, fallback) && parenthesized(
        docs,
        all_flat.0 as int,
        has_output,
    ) && fallback.0 < docs.len() && (docs[fallback.0 as int] matches DocumentView::TryCatch(flat, broken)
        && parenthesized(docs, flat.0 as int, has_output) && parenthesized(docs, broken.0 as int, has_output)))
}

/// `b` is the broken body of a comma group over `n` elements in order.
pub open spec fn broken_body_of(docs: Seq<DocumentView>, b: DocumentIdx, n: int, indent: isize) -> bool {
    exists|bodies: GroupBodies, elements: Seq<DocumentIdx>|
        #![trigger group_holds_in_order(docs, bodies, elements, indent)]
        bodies.broken == b && elements.len() == n && group_holds_in_order(docs, bodies, elements, indent)
}

/// The layout of a type declaration at `i`: attributes, visibility, the
/// keyword, the name and the type parameters; then for an enum and a
/// struct `" {"`, the broken body of its variants or members, and `}`
/// (an enum's variants each in their place, in order), and for an alias
/// `" = "`, the type and `;`.
pub open spec fn type_declaration_doc(
    src: Seq<u8>,
    docs: Seq<DocumentView>,
    i: int,
    declaration: TypeDeclaration,
    indent: isize,
) -> bool {
    let a = if declaration.visibility.inner is Implicit {
        0int
    } else {
        1int
    };
    let p = if declaration.generic_args is Some {
        1int
    } else {
        0int
    };
    &&& 0 <= i < docs.len()
    &&& docs[i] matches DocumentView::List(l) && l.len() == 6 + a + p && (declaration.generic_args matches Some(
        params,
    ) ==> params.inner@.len() > 0 ==> group_doc(
        docs,
        l[3 + a].0 as int,
        "<"@,
        ">"@,
        params.inner@.len() as int,
        indent,
    )) && match declaration.kind {
        TypeDeclKind::Enum(e) => {
            &&& text_at(docs, l, 1 + a, "enum "@)
            &&& text_at(docs, l, 2 + a, identifier_spelling(src, e.inner.name))
            &&& text_at(docs, l, 3 + a + p, " {"@)
            &&& e.inner.variants@.len() > 0 ==> broken_body_of(docs, l[4 + a + p], e.inner.variants@.len() as int, indent)
            &&& text_at(docs, l, 5 + a + p, "}"@)
        },
        TypeDeclKind::Struct(st) => {
            &&& text_at(docs, l, 1 + a, "struct "@)
            &&& text_at(docs, l, 2 + a, identifier_spelling(src, st.inner.name))
            &&& text_at(docs, l, 3 + a + p, " {"@)
            &&& text_at(docs, l, 5 + a + p, "}"@)
        },
        TypeDeclKind::Alias(alias) => {
            &&& text_at(docs, l, 1 + a, "type "@)
            &&& text_at(docs, l, 2 + a, identifier_spelling(src, alias.inner.name))
            &&& text_at(docs, l, 3 + a + p, " = "@)
            &&& text_at(docs, l, 5 + a + p, ";"@)
        },
    }
}

/// A use statement's entry in a group under a common prefix of `p`
/// segments: its path after the prefix, then ` as ` and its alias when
/// it has one.
pub open spec fn use_entry_text(src: Seq<u8>, statement: UseStatement, p: int) -> Seq<char> {
    let segments = statement.path.inner.0@;
    let from = if p <= segments.len() {
        p
    } else {
        segments.len() as int
    };
    let path = path_spelling(src, segments, from, segments.len() as int);
    match statement.alias {
        Some(alias) => path + " as "@ + identifier_spelling(src, alias),
        None => path,
    }
}

/// The `k`th of `elements` names the entry of the `k`th statement.
pub open spec fn use_entries(
    src: Seq<u8>,
    docs: Seq<DocumentView>,
    elements: Seq<DocumentIdx>,
    statements: Seq<UseStatement>,
    p: int,
) -> bool {
    &&& elements.len() == statements.len()
    &&& forall|k: int|
        0 <= k < statements.len() ==> #[trigger] names(
            docs,
            elements[k],
            DocumentView::Text(use_entry_text(src, statements[k], p)),
        )
}

/// `g` names the brace group of `statements` under a common prefix of
/// `p` segments, one entry per statement in order.
pub open spec fn use_group(
    src: Seq<u8>,
    docs: Seq<DocumentView>,
    g: int,
    statements: Seq<UseStatement>,
    p: int,
    indent: isize,
) -> bool {
    exists|bodies: GroupBodies, elements: Seq<DocumentIdx>|
        #![trigger group_holds_in_order(docs, bodies, elements, indent)]
        wrapped(docs, g, "{"@, "}"@, bodies) && group_holds_in_order(docs, bodies, elements, indent)
            && use_entries(src, docs, elements, statements, p)
}

/// Several use statements under a common prefix of `p` segments: the
/// prefix and `::` when there is one, then their brace group, in `l`
/// after `use `, which follows the attributes and `a` visibility
/// documents.
pub open spec fn use_grouped(
    src: Seq<u8>,
    docs: Seq<DocumentView>,
    l: Seq<DocumentIdx>,
    a: int,
    statements: Seq<UseStatement>,
    p: int,
    indent: isize,
) -> bool {
    let u = a + 1;
    &&& 0 <= p
    &&& l.len() == u + 3 + (if p > 0 {
        1int
    } else {
        0int
    })
    &&& p > 0 ==> text_at(
        docs,
        l,
        u + 1,
        path_spelling(src, statements[0].path.inner.0@, 0, p) + "::"@,
    )
    &&& use_group(src, docs, l[l.len() - 2].0 as int, statements, p, indent)
}

/// Several use statements laid out under a common prefix of `p`
/// segments meet [`use_doc`].
proof fn lemma_use_doc_grouped(
    src: Seq<u8>,
    docs: Seq<DocumentView>,
    i: int,
    statements: Seq<UseStatement>,
    indent: isize,
    l: Seq<DocumentIdx>,
    p: int,
)
    requires
        statements.len() > 1,
        0 <= i < docs.len(),
        docs[i] == DocumentView::List(l),
        text_at(docs, l, 1 + use_visibility_count(statements), "use "@),
        text_at(docs, l, l.len() - 1, ";"@),
        group_doc(docs, l[l.len() - 2].0 as int, "{"@, "}"@, statements.len() as int, indent),
        use_grouped(src, docs, l, use_visibility_count(statements), statements, p, indent),
    ensures
        use_doc(src, docs, i, statements, indent),
{
}

proof fn lemma_use_group_grows(
    src: Seq<u8>,
    docs: Seq<DocumentView>,
    grown: Seq<DocumentView>,
    g: int,
    statements: Seq<UseStatement>,
    p: int,
    indent: isize,
)
    requires
        use_group(src, docs, g, statements, p, indent),
        keeps(docs, grown),
    ensures
        use_group(src, grown, g, statements, p, indent),
{
    let (bodies, elements) = choose|bodies: GroupBodies, elements: Seq<DocumentIdx>|
        #![trigger group_holds_in_order(docs, bodies, elements, indent)]
        wrapped(docs, g, "{"@, "}"@, bodies) && group_holds_in_order(docs, bodies, elements, indent)
            && use_entries(src, docs, elements, statements, p);
    lemma_group_holds_in_order_grows(docs, grown, bodies, elements, indent);
    assert(grown[g] == docs[g]);
    if bodies.force {
        lemma_delimited_grows(docs, grown, g, "{"@, bodies.broken, "}"@);
    } else {
        let f = docs[g]->TryCatch_0;
        let b = docs[g]->TryCatch_1;
        lemma_delimited_grows(docs, grown, f.0 as int, "{"@, bodies.flat, "}"@);
        lemma_delimited_grows(docs, grown, b.0 as int, "{"@, bodies.broken, "}"@);
    }
    assert forall|k: int| 0 <= k < statements.len() implies #[trigger] names(
        grown,
        elements[k],
        DocumentView::Text(use_entry_text(src, statements[k], p)),
    ) by {
        assert(names(docs, elements[k], DocumentView::Text(use_entry_text(src, statements[k], p))));
        assert(grown[elements[k].0 as int] == docs[elements[k].0 as int]);
    }
    assert(wrapped(grown, g, "{"@, "}"@, bodies));
}

/// One when the first of `statements` carries a visibility, which then
/// prints before `use `.
pub open spec fn use_visibility_count(statements: Seq<UseStatement>) -> int {
    if statements.len() > 0 && !(statements[0].visibility.inner is Implicit) {
        1int
    } else {
        0int
    }
}

/// The layout of `use` statements at `i`: attributes, visibility and
/// `use `, then for a single statement its path, its alias and `;`, and
/// for several a brace group over their common-prefix-free entries, one
/// per statement in order, and `;`.
pub open spec fn use_doc(
    src: Seq<u8>,
    docs: Seq<DocumentView>,
    i: int,
    statements: Seq<UseStatement>,
    indent: isize,
) -> bool {
    let a = use_visibility_count(statements);
    &&& 0 <= i < docs.len()
    &&& docs[i] matches DocumentView::List(l) && text_at(docs, l, 1 + a, "use "@) && text_at(
        docs,
        l,
        l.len() - 1,
        ";"@,
    ) && (statements.len() == 1 ==> {
        let statement = statements[0];
        let s = if statement.alias is Some {
            1int
        } else {
            0int
        };
        &&& l.len() == 4 + a + s
        &&& text_at(
            docs,
            l,
            2 + a,
            path_spelling(src, statement.path.inner.0@, 0, statement.path.inner.0@.len() as int),
        )
        &&& statement.alias matches Some(alias) ==> text_at(
            docs,
            l,
            3 + a,
            " as "@ + identifier_spelling(src, alias),
        )
    }) && (statements.len() > 1 ==> l.len() >= 4 + a && group_doc(
        docs,
        l[l.len() - 2].0 as int,
        "{"@,
        "}"@,
        statements.len() as int,
        indent,
    ) && exists|p: int| #[trigger] use_grouped(src, docs, l, a, statements, p, indent))
}

/// The head of a trait definition in `l`, up to its `m`th supertrait:
/// attributes, visibility, `trait` and the name, the type parameters,
/// then `": "` before the first supertrait and `" + "` before each other.
pub open spec fn trait_head_upto(
    src: Seq<u8>,
    docs: Seq<DocumentView>,
    l: Seq<DocumentIdx>,
    t: TraitDef,
    indent: isize,
    m: int,
) -> bool {
    let a = if t.visibility.inner is Implicit {
        0int
    } else {
        1int
    };
    let p = if t.type_params is Some {
        1int
    } else {
        0int
    };
    &&& l.len() >= 2 + a + p + 2 * m
    &&& text_at(docs, l, 1 + a, "trait "@ + identifier_spelling(src, t.name))
    &&& (t.type_params matches Some(params) ==> params.inner@.len() > 0 ==> group_doc(
        docs,
        l[2 + a].0 as int,
        "<"@,
        ">"@,
        params.inner@.len() as int,
        indent,
    ))
    &&& trait_sep_base(t) == 2 + a + p
    &&& forall|k: int| 0 <= k < m ==> #[trigger] sep_at(docs, l, trait_sep_base(t), k)
}

/// Where the separators before a trait's supertraits start in its list.
pub open spec fn trait_sep_base(t: TraitDef) -> int {
    2 + (if t.visibility.inner is Implicit {
        0int
    } else {
        1int
    }) + (if t.type_params is Some {
        1int
    } else {
        0int
    })
}

/// The `k`th supertrait separator, two entries apart from `base` on:
/// `": "` before the first supertrait and `" + "` before each other.
pub open spec fn sep_at(docs: Seq<DocumentView>, l: Seq<DocumentIdx>, base: int, k: int) -> bool {
    text_at(
        docs,
        l,
        base + 2 * k,
        if k == 0 {
            ": "@
        } else {
            " + "@
        },
    )
}

/// The layout of a trait definition at `i`: its head with every
/// supertrait, the where clauses, `" {"`, its members, and `}`.
pub open spec fn trait_def_doc(src: Seq<u8>, docs: Seq<DocumentView>, i: int, t: TraitDef, indent: isize) -> bool {
    let a = if t.visibility.inner is Implicit {
        0int
    } else {
        1int
    };
    let p = if t.type_params is Some {
        1int
    } else {
        0int
    };
    let n = t.subtraits@.len() as int;
    &&& 0 <= i < docs.len()
    &&& docs[i] matches DocumentView::List(l) && l.len() >= 5 + a + p + 2 * n && trait_head_upto(
        src,
        docs,
        l,
        t,
        indent,
        n,
    ) && text_at(docs, l, 3 + a + p + 2 * n, " {"@) && text_at(docs, l, l.len() - 1, "}"@)
}

proof fn lemma_trait_head_grows(
    src: Seq<u8>,
    docs: Seq<DocumentView>,
    grown: Seq<DocumentView>,
    l: Seq<DocumentIdx>,
    t: TraitDef,
    indent: isize,
    m: int,
)
    requires
        trait_head_upto(src, docs, l, t, indent, m),
        keeps(docs, grown),
    ensures
        trait_head_upto(src, grown, l, t, indent, m),
{
    let a = if t.visibility.inner is Implicit {
        0int
    } else {
        1int
    };
    let p = if t.type_params is Some {
        1int
    } else {
        0int
    };
    assert(grown[l[1 + a].0 as int] == docs[l[1 + a].0 as int]);
    if t.type_params is Some {
        let params = t.type_params->0;
        if params.inner@.len() > 0 {
            lemma_group_doc_grows(docs, grown, l[2 + a].0 as int, "<"@, ">"@, params.inner@.len() as int, indent);
        }
    }
    assert forall|k: int| 0 <= k < m implies #[trigger] sep_at(grown, l, trait_sep_base(t), k) by {
        assert(sep_at(docs, l, trait_sep_base(t), k));
        assert(grown[l[2 + a + p + 2 * k].0 as int] == docs[l[2 + a + p + 2 * k].0 as int]);
    }
}

proof fn lemma_trait_head_prefix(
    src: Seq<u8>,
    docs: Seq<DocumentView>,
    l0: Seq<DocumentIdx>,
    l: Seq<DocumentIdx>,
    t: TraitDef,
    indent: isize,
    m: int,
)
    requires
        trait_head_upto(src, docs, l0, t, indent, m),
        0 <= m,
        l0.len() <= l.len(),
        forall|k: int| 0 <= k < l0.len() ==> #[trigger] l[k] == l0[k],
    ensures
        trait_head_upto(src, docs, l, t, indent, m),
{
    let a = if t.visibility.inner is Implicit {
        0int
    } else {
        1int
    };
    let p = if t.type_params is Some {
        1int
    } else {
        0int
    };
    assert(l[1 + a] == l0[1 + a]);
    if t.type_params is Some {
        assert(l[2 + a] == l0[2 + a]);
    }
    assert forall|k: int| 0 <= k < m implies #[trigger] sep_at(docs, l, trait_sep_base(t), k) by {
        assert(sep_at(docs, l0, trait_sep_base(t), k));
        assert(l[2 + a + p + 2 * k] == l0[2 + a + p + 2 * k]);
    }
}

/// `i` names the list of `open`, one body and `close`.
pub open spec fn delimited_list(docs: Seq<DocumentView>, i: int, open: Seq<char>, close: Seq<char>) -> bool {
    &&& 0 <= i < docs.len()
    &&& docs[i] matches DocumentView::List(l) && l.len() == 3 && text_at(docs, l, 0, open) && text_at(
        docs,
        l,
        2,
        close,
    )
}

/// `i` names a group between `open` and `close`: one delimited layout,
/// or a choice of two.
pub open spec fn delimited_by(docs: Seq<DocumentView>, i: int, open: Seq<char>, close: Seq<char>) -> bool {
    ||| delimited_list(docs, i, open, close)
    ||| 0 <= i < docs.len() && (docs[i] matches DocumentView::TryCatch(f, b) && delimited_list(
        docs,
        f.0 as int,
        open,
        close,
    ) && delimited_list(docs, b.0 as int, open, close))
}

proof fn lemma_delimited_list_grows(docs: Seq<DocumentView>, grown: Seq<DocumentView>, i: int, open: Seq<char>, close: Seq<char>)
    requires
        delimited_list(docs, i, open, close),
        keeps(docs, grown),
    ensures
        delimited_list(grown, i, open, close),
{
    assert(grown[i] == docs[i]);
    let l = docs[i]->List_0;
    assert(grown[l[0].0 as int] == docs[l[0].0 as int]);
    assert(grown[l[2].0 as int] == docs[l[2].0 as int]);
}

proof fn lemma_delimited_by_grows(docs: Seq<DocumentView>, grown: Seq<DocumentView>, i: int, open: Seq<char>, close: Seq<char>)
    requires
        delimited_by(docs, i, open, close),
        keeps(docs, grown),
    ensures
        delimited_by(grown, i, open, close),
{
    if delimited_list(docs, i, open, close) {
        lemma_delimited_list_grows(docs, grown, i, open, close);
    } else {
        assert(grown[i] == docs[i]);
        let f = docs[i]->TryCatch_0;
        let b = docs[i]->TryCatch_1;
        lemma_delimited_list_grows(docs, grown, f.0 as int, open, close);
        lemma_delimited_list_grows(docs, grown, b.0 as int, open, close);
    }
}

/// A wrapped group is delimited by its `open` and `close`.
proof fn lemma_wrapped_delimited(docs: Seq<DocumentView>, i: int, open: Seq<char>, close: Seq<char>, bodies: GroupBodies)
    requires
        wrapped(docs, i, open, close, bodies),
    ensures
        delimited_by(docs, i, open, close),
{
}

/// The layout of a pattern's own document at `i`: a tuple pattern is a
/// group between `(` and `)` over its elements, an array pattern one
/// between `[` and `]`; a path is its spelling, after `wire ` for a
/// wire; a bound pattern starts with its name and ` @ `; an enum or
/// struct pattern starts with its path.
pub open spec fn pattern_shape(src: Seq<u8>, docs: Seq<DocumentView>, i: int, pattern: Pattern, indent: isize) -> bool {
    &&& 0 <= i < docs.len()
    &&& match pattern {
        Pattern::Tuple(elements) => delimited_by(docs, i, "("@, ")"@) && (elements@.len() > 0 ==> group_doc(
            docs,
            i,
            "("@,
            ")"@,
            elements@.len() as int,
            indent,
        )),
        Pattern::Array(elements) => delimited_by(docs, i, "["@, "]"@) && (elements@.len() > 0 ==> group_doc(
            docs,
            i,
            "["@,
            "]"@,
            elements@.len() as int,
            indent,
        )),
        Pattern::Path { wire, path } => docs[i] matches DocumentView::List(l) && l.len() == (if wire {
            2int
        } else {
            1int
        }) && (wire ==> text_at(docs, l, 0, "wire "@)) && text_at(
            docs,
            l,
            l.len() - 1,
            path_spelling(src, path.inner.0@, 0, path.inner.0@.len() as int),
        ),
        Pattern::Bound(name, _) => docs[i] matches DocumentView::List(l) && l.len() == 2 && text_at(
            docs,
            l,
            0,
            identifier_spelling(src, name) + " @ "@,
        ),
        Pattern::Type(name, _) => docs[i] matches DocumentView::List(l) && l.len() == 2 && text_at(
            docs,
            l,
            0,
            path_spelling(src, name.inner.0@, 0, name.inner.0@.len() as int),
        ),
        _ => true,
    }
}

/// A pattern's document at `i`: its own layout, or a list of the inline
/// comments before it ending in that layout.
pub open spec fn pattern_doc(src: Seq<u8>, docs: Seq<DocumentView>, i: int, pattern: Pattern, indent: isize) -> bool {
    ||| pattern_shape(src, docs, i, pattern, indent)
    ||| 0 <= i < docs.len() && (docs[i] matches DocumentView::List(l) && l.len() > 0 && pattern_shape(
        src,
        docs,
        l.last().0 as int,
        pattern,
        indent,
    ))
}

proof fn lemma_pattern_shape_grows(
    src: Seq<u8>,
    docs: Seq<DocumentView>,
    grown: Seq<DocumentView>,
    i: int,
    pattern: Pattern,
    indent: isize,
)
    requires
        pattern_shape(src, docs, i, pattern, indent),
        keeps(docs, grown),
    ensures
        pattern_shape(src, grown, i, pattern, indent),
{
    assert(grown[i] == docs[i]);
    if docs[i] is List {
        let l = docs[i]->List_0;
        assert forall|k: int| 0 <= k < l.len() && l[k].0 < docs.len() implies #[trigger] grown[l[k].0 as int]
            == docs[l[k].0 as int] by {}
    }
    match pattern {
        Pattern::Tuple(elements) => {
            lemma_delimited_by_grows(docs, grown, i, "("@, ")"@);
            if elements@.len() > 0 {
                lemma_group_doc_grows(docs, grown, i, "("@, ")"@, elements@.len() as int, indent);
            }
        },
        Pattern::Array(elements) => {
            lemma_delimited_by_grows(docs, grown, i, "["@, "]"@);
            if elements@.len() > 0 {
                lemma_group_doc_grows(docs, grown, i, "["@, "]"@, elements@.len() as int, indent);
            }
        },
        _ => {},
    }
}

proof fn lemma_pattern_doc_grows(
    src: Seq<u8>,
    docs: Seq<DocumentView>,
    grown: Seq<DocumentView>,
    i: int,
    pattern: Pattern,
    indent: isize,
)
    requires
        pattern_doc(src, docs, i, pattern, indent),
        keeps(docs, grown),
    ensures
        pattern_doc(src, grown, i, pattern, indent),
{
    if pattern_shape(src, docs, i, pattern, indent) {
        lemma_pattern_shape_grows(src, docs, grown, i, pattern, indent);
    } else {
        assert(grown[i] == docs[i]);
        let l = docs[i]->List_0;
        lemma_pattern_shape_grows(src, docs, grown, l.last().0 as int, pattern, indent);
    }
}

/// The parts of a register statement in `l`, in order: the attributes,
/// `reg(`, the clock, `) `, the pattern, `: ` and the type when it has
/// one, ` `, then `reset(`, the reset condition, `: `, the reset value
/// and `) ` when it has a reset, `initial(`, the initial value and `) `
/// when it has one, and `= ` and the value.
pub open spec fn register_parts(
    src: Seq<u8>,
    docs: Seq<DocumentView>,
    l: Seq<DocumentIdx>,
    register: Register,
    indent: isize,
) -> bool {
    let t = if register.value_type is Some {
        2int
    } else {
        0int
    };
    let r = if register.reset is Some {
        5int
    } else {
        0int
    };
    let n = if register.initial is Some {
        3int
    } else {
        0int
    };
    &&& l.len() >= 8 + t + r + n
    &&& text_at(docs, l, 1, "reg("@)
    &&& operand_at(src, docs, l, 2, register.clock)
    &&& text_at(docs, l, 3, ") "@)
    &&& l[4].0 < docs.len() && pattern_doc(src, docs, l[4].0 as int, register.pattern.inner, indent)
    &&& register.value_type is Some ==> text_at(docs, l, 5, ": "@)
    &&& text_at(docs, l, 5 + t, " "@)
    &&& (register.reset matches Some(reset) ==> {
        &&& text_at(docs, l, 6 + t, "reset("@)
        &&& operand_at(src, docs, l, 7 + t, reset.0)
        &&& text_at(docs, l, 8 + t, ": "@)
        &&& operand_at(src, docs, l, 9 + t, reset.1)
        &&& text_at(docs, l, 10 + t, ") "@)
    })
    &&& (register.initial matches Some(initial) ==> {
        &&& text_at(docs, l, 6 + t + r, "initial("@)
        &&& operand_at(src, docs, l, 7 + t + r, initial)
        &&& text_at(docs, l, 8 + t + r, ") "@)
    })
    &&& text_at(docs, l, 6 + t + r + n, "= "@)
    &&& operand_at(src, docs, l, 7 + t + r + n, register.value)
}

/// A register's parts keep their layout as the list and the store grow.
proof fn lemma_register_parts_keeps(
    src: Seq<u8>,
    docs: Seq<DocumentView>,
    grown: Seq<DocumentView>,
    l0: Seq<DocumentIdx>,
    l: Seq<DocumentIdx>,
    register: Register,
    indent: isize,
)
    requires
        register_parts(src, docs, l0, register, indent),
        keeps(docs, grown),
        l0.len() <= l.len(),
        forall|j: int| 0 <= j < l0.len() ==> #[trigger] l[j] == l0[j],
    ensures
        register_parts(src, grown, l, register, indent),
{
    let t = if register.value_type is Some {
        2int
    } else {
        0int
    };
    let r = if register.reset is Some {
        5int
    } else {
        0int
    };
    let n = if register.initial is Some {
        3int
    } else {
        0int
    };
    assert forall|j: int| 0 <= j < l0.len() && l0[j].0 < docs.len() implies #[trigger] grown[l0[j].0 as int]
        == docs[l0[j].0 as int] && l[j] == l0[j] by {}
    lemma_operand_doc_grows(src, docs, grown, l0[2].0 as int, register.clock);
    assert(l[4] == l0[4]);
    lemma_pattern_doc_grows(src, docs, grown, l0[4].0 as int, register.pattern.inner, indent);
    if register.reset is Some {
        let reset = register.reset->0;
        lemma_operand_doc_grows(src, docs, grown, l0[7 + t].0 as int, reset.0);
        lemma_operand_doc_grows(src, docs, grown, l0[9 + t].0 as int, reset.1);
        assert(l[7 + t] == l0[7 + t]);
        assert(l[9 + t] == l0[9 + t]);
    }
    if register.initial is Some {
        lemma_operand_doc_grows(src, docs, grown, l0[7 + t + r].0 as int, register.initial->0);
        assert(l[7 + t + r] == l0[7 + t + r]);
    }
    lemma_operand_doc_grows(src, docs, grown, l0[7 + t + r + n].0 as int, register.value);
    assert(l[2] == l0[2]);
    assert(l[7 + t + r + n] == l0[7 + t + r + n]);
}

/// The keyword of a unit kind at `i`: `fn` for a function, `entity` for
/// an entity, and `pipeline(`, the depth and `)` for a pipeline, each
/// followed by a space when `spaced`.
pub open spec fn unit_kind_shape(docs: Seq<DocumentView>, i: int, kind: UnitKind, spaced: bool) -> bool {
    let space = if spaced {
        " "@
    } else {
        Seq::<char>::empty()
    };
    &&& 0 <= i < docs.len()
    &&& match kind {
        UnitKind::Function => docs[i] == DocumentView::Text("fn"@ + space),
        UnitKind::Entity => docs[i] == DocumentView::Text("entity"@ + space),
        UnitKind::Pipeline(_) => docs[i] matches DocumentView::List(l) && l.len() == 3 && text_at(
            docs,
            l,
            0,
            "pipeline("@,
        ) && text_at(docs, l, 2, ")"@ + space),
    }
}

proof fn lemma_unit_kind_shape_grows(
    docs: Seq<DocumentView>,
    grown: Seq<DocumentView>,
    i: int,
    kind: UnitKind,
    spaced: bool,
)
    requires
        unit_kind_shape(docs, i, kind, spaced),
        keeps(docs, grown),
    ensures
        unit_kind_shape(grown, i, kind, spaced),
{
    assert(grown[i] == docs[i]);
    if kind is Pipeline {
        let l = docs[i]->List_0;
        assert(grown[l[0].0 as int] == docs[l[0].0 as int]);
        assert(grown[l[2].0 as int] == docs[l[2].0 as int]);
    }
}

/// The documents a call's kind puts at `start` of `l`, before the
/// callee: nothing for a function call, `inst ` for an entity, and `inst(`, the latency and
/// `) ` for a pipeline.
pub open spec fn call_kind_shape(docs: Seq<DocumentView>, l: Seq<DocumentIdx>, start: int, kind: CallKind) -> bool {
    match kind {
        CallKind::Function => true,
        CallKind::Entity => text_at(docs, l, start, "inst "@),
        CallKind::Pipeline(_) => text_at(docs, l, start, "inst("@) && text_at(docs, l, start + 2, ") "@),
    }
}

/// A call's kind documents stay in place as the list and the store grow.
proof fn lemma_call_kind_shape_keeps(
    docs: Seq<DocumentView>,
    grown: Seq<DocumentView>,
    l0: Seq<DocumentIdx>,
    l: Seq<DocumentIdx>,
    start: int,
    kind: CallKind,
)
    requires
        call_kind_shape(docs, l0, start, kind),
        keeps(docs, grown),
        0 <= start,
        start + call_kind_len(kind) <= l0.len() <= l.len(),
        forall|j: int| 0 <= j < l0.len() ==> #[trigger] l[j] == l0[j],
    ensures
        call_kind_shape(grown, l, start, kind),
{
    if !(kind is Function) {
        assert(l[start] == l0[start]);
        assert(grown[l0[start].0 as int] == docs[l0[start].0 as int]);
    }
    if kind is Pipeline {
        assert(l[start + 2] == l0[start + 2]);
        assert(grown[l0[start + 2].0 as int] == docs[l0[start + 2].0 as int]);
    }
}

/// The number of documents a call's kind puts before the callee.
pub open spec fn call_kind_len(kind: CallKind) -> int {
    match kind {
        CallKind::Function => 0,
        CallKind::Entity => 1,
        CallKind::Pipeline(_) => 3,
    }
}

/// The start of a unit head in `l`: attributes, visibility, `unsafe `,
/// `extern `, the unit kind and the name.
pub open spec fn head_start_shape(src: Seq<u8>, docs: Seq<DocumentView>, l: Seq<DocumentIdx>, head: UnitHead) -> bool {
    let a = if head.visibility.inner is Implicit {
        0int
    } else {
        1int
    };
    let u = if head.unsafe_token {
        1int
    } else {
        0int
    };
    let e = if head.extern_token {
        1int
    } else {
        0int
    };
    &&& l.len() == 3 + a + u + e
    &&& head.unsafe_token ==> text_at(docs, l, 1 + a, "unsafe "@)
    &&& head.extern_token ==> text_at(docs, l, 1 + a + u, "extern "@)
    &&& unit_kind_shape(docs, l[1 + a + u + e].0 as int, head.unit_kind.inner, false)
    &&& text_at(docs, l, 2 + a + u + e, " "@ + identifier_spelling(src, head.name))
}

proof fn lemma_head_start_grows(
    src: Seq<u8>,
    docs: Seq<DocumentView>,
    grown: Seq<DocumentView>,
    l: Seq<DocumentIdx>,
    head: UnitHead,
)
    requires
        head_start_shape(src, docs, l, head),
        keeps(docs, grown),
    ensures
        head_start_shape(src, grown, l, head),
{
    assert forall|k: int| 0 <= k < l.len() && l[k].0 < docs.len() implies #[trigger] grown[l[k].0 as int]
        == docs[l[k].0 as int] by {}
    let k = l.len() - 2;
    lemma_unit_kind_shape_grows(docs, grown, l[k].0 as int, head.unit_kind.inner, false);
}

proof fn lemma_head_start_prefix(
    src: Seq<u8>,
    docs: Seq<DocumentView>,
    start: Seq<DocumentIdx>,
    l: Seq<DocumentIdx>,
    head: UnitHead,
)
    requires
        head_start_shape(src, docs, start, head),
        start.len() <= l.len(),
        l.subrange(0, start.len() as int) == start,
    ensures
        forall|k: int| 0 <= k < start.len() ==> #[trigger] l[k] == start[k],
{
    assert forall|k: int| 0 <= k < start.len() implies #[trigger] l[k] == start[k] by {
        assert(l.subrange(0, start.len() as int)[k] == l[k]);
    }
}

/// The layout of a unit's head at `i`: attributes, visibility, `unsafe `,
/// `extern `, the unit kind, the name, the type parameters, the
/// signature and the where clauses, in that order.
pub open spec fn unit_head_doc(src: Seq<u8>, docs: Seq<DocumentView>, i: int, head: UnitHead, indent: isize) -> bool {
    let a = if head.visibility.inner is Implicit {
        0int
    } else {
        1int
    };
    let u = if head.unsafe_token {
        1int
    } else {
        0int
    };
    let e = if head.extern_token {
        1int
    } else {
        0int
    };
    let v = a + u + e;
    let t = if head.type_params is Some {
        1int
    } else {
        0int
    };
    &&& 0 <= i < docs.len()
    &&& docs[i] matches DocumentView::List(l) && l.len() == 5 + v + t && unit_kind_shape(
        docs,
        l[1 + v].0 as int,
        head.unit_kind.inner,
        false,
    ) && (head.unsafe_token ==> text_at(
        docs,
        l,
        1 + a,
        "unsafe "@,
    )) && (head.extern_token ==> text_at(docs, l, 1 + a + u, "extern "@)) && text_at(
        docs,
        l,
        2 + v,
        " "@ + identifier_spelling(src, head.name),
    ) && (head.type_params matches Some(params) ==> params.inner@.len() > 0 ==> group_doc(
        docs,
        l[3 + v].0 as int,
        "<"@,
        ">"@,
        params.inner@.len() as int,
        indent,
    )) && signature_shape(docs, l[3 + v + t].0 as int, head.output_type is Some)
}

/// An entity instantiation keeps its keyword: the document of a call of
/// kind `Entity` starts with `inst `, and that of a call of kind
/// `Pipeline` starts with `inst(`, its latency and `) `.
pub proof fn law_instantiation_keeps_inst(src: Seq<u8>, docs: Seq<DocumentView>, i: int, e: Loc<Expression>)
    requires
        expression_doc(src, docs, i, e),
        e.inner is Call,
    ensures
        e.inner->Call_kind is Entity ==> (docs[i] matches DocumentView::List(l) && l.len() > 0 && names(
            docs,
            l[0],
            DocumentView::Text("inst "@),
        )),
        e.inner->Call_kind is Pipeline ==> (docs[i] matches DocumentView::List(l) && l.len() > 2 && names(
            docs,
            l[0],
            DocumentView::Text("inst("@),
        ) && names(docs, l[2], DocumentView::Text(") "@))),
        e.inner->Call_kind is Function ==> (docs[i] matches DocumentView::List(l) && l.len() > 0 && names(
            docs,
            l[0],
            DocumentView::Text(path_spelling(src, e.inner->callee.inner.0@, 0, e.inner->callee.inner.0@.len() as int)),
        )),
{
}

/// A register's reset prints its condition, then `: `, then its value:
/// the two are never swapped.
pub proof fn law_register_reset_in_order(
    src: Seq<u8>,
    docs: Seq<DocumentView>,
    i: int,
    s: Loc<Statement>,
    indent: isize,
)
    requires
        statement_doc(src, docs, i, s, indent),
        s.inner is Register,
        s.inner->Register_0.inner.reset is Some,
    ensures
        ({
            let register = s.inner->Register_0.inner;
            let reset = register.reset->0;
            let t = if register.value_type is Some {
                2int
            } else {
                0int
            };
            docs[i] matches DocumentView::List(l) && names(docs, l[6 + t], DocumentView::Text("reset("@))
                && operand_doc(src, docs, l[7 + t].0 as int, reset.0) && names(
                docs,
                l[8 + t],
                DocumentView::Text(": "@),
            ) && operand_doc(src, docs, l[9 + t].0 as int, reset.1) && names(
                docs,
                l[10 + t],
                DocumentView::Text(") "@),
            )
        }),
{
}

/// A tuple pattern opens with `(` and closes with `)`, and an array
/// pattern opens with `[` and closes with `]`, in every layout.
pub proof fn law_pattern_delimiters(src: Seq<u8>, docs: Seq<DocumentView>, i: int, pattern: Pattern, indent: isize)
    requires
        pattern_shape(src, docs, i, pattern, indent),
        pattern is Tuple || pattern is Array,
    ensures
        ({
            let (open, close) = if pattern is Tuple {
                ("("@, ")"@)
            } else {
                ("["@, "]"@)
            };
            let layouts = if docs[i] is TryCatch {
                seq![docs[i]->TryCatch_0.0 as int, docs[i]->TryCatch_1.0 as int]
            } else {
                seq![i]
            };
            forall|k: int|
                0 <= k < layouts.len() ==> (docs[#[trigger] layouts[k]] matches DocumentView::List(l) && l.len() == 3
                    && names(docs, l[0], DocumentView::Text(open)) && names(docs, l[2], DocumentView::Text(close)))
        }),
{
}

/// A unit head's keyword follows its kind: `fn` for a function and
/// `entity` for an entity.
pub proof fn law_unit_kind_keyword(src: Seq<u8>, docs: Seq<DocumentView>, i: int, head: UnitHead, indent: isize)
    requires
        unit_head_doc(src, docs, i, head, indent),
    ensures
        ({
            let a = if head.visibility.inner is Implicit {
                0int
            } else {
                1int
            };
            let u = if head.unsafe_token {
                1int
            } else {
                0int
            };
            let e = if head.extern_token {
                1int
            } else {
                0int
            };
            docs[i] matches DocumentView::List(l) && (head.unit_kind.inner is Function ==> names(
                docs,
                l[1 + a + u + e],
                DocumentView::Text("fn"@),
            )) && (head.unit_kind.inner is Entity ==> names(docs, l[1 + a + u + e], DocumentView::Text("entity"@)))
        }),
{
    assert("fn"@ + Seq::<char>::empty() =~= "fn"@);
    assert("entity"@ + Seq::<char>::empty() =~= "entity"@);
}

/// An aliased use entry ends in ` as ` and its alias: regrouping never
/// drops an alias.
pub proof fn law_use_entry_keeps_alias(
    src: Seq<u8>,
    docs: Seq<DocumentView>,
    elements: Seq<DocumentIdx>,
    statements: Seq<UseStatement>,
    p: int,
    k: int,
)
    requires
        use_entries(src, docs, elements, statements, p),
        0 <= k < statements.len(),
        statements[k].alias is Some,
    ensures
        ({
            let suffix = " as "@ + identifier_spelling(src, statements[k].alias->0);
            docs[elements[k].0 as int] matches DocumentView::Text(t) && t.len() >= suffix.len() && t.subrange(
                t.len() - suffix.len(),
                t.len() as int,
            ) == suffix
        }),
{
    let alias = statements[k].alias->0;
    let suffix = " as "@ + identifier_spelling(src, alias);
    let t = use_entry_text(src, statements[k], p);
    assert(names(docs, elements[k], DocumentView::Text(t)));
    let segments = statements[k].path.inner.0@;
    let from = if p <= segments.len() {
        p
    } else {
        segments.len() as int
    };
    let path = path_spelling(src, segments, from, segments.len() as int);
    assert(t == path + " as "@ + identifier_spelling(src, alias));
    assert(t =~= path + suffix);
    assert(t.subrange(t.len() - suffix.len(), t.len() as int) =~= suffix);
}

/// `after` comes from `before` by building: the builder grew, the comment
/// map only gained claims, and `idx` names a built document.
pub open spec fn built<'c>(
    after: &DocumentBuilder,
    before: &DocumentBuilder,
    comments_after: &CommentMap<'c>,
    comments_before: &CommentMap<'c>,
    idx: DocumentIdx,
) -> bool {
    &&& after.grows(before)
    &&& comments_after.kept_from(comments_before)
    &&& after.holds(idx)
}

/// The flat and broken bodies of a delimiter-separated group, and whether
/// a comment inside it forces the broken one.
pub struct GroupBodies {
    pub flat: DocumentIdx,
    pub broken: DocumentIdx,
    pub force: bool,
}

/// A delimiter-separated group while its elements are added.
struct GroupState<'c> {
    list: Vec<DocumentIdx>,
    /// Trailing line comments; unlike block ones they cannot precede the
    /// separator, so they wait for it.
    pending: Vec<CommentToPrint<'c>>,
    prev_end_line: usize,
    last_end_byte: usize,
    started: bool,
    open_trailing: Vec<CommentToPrint<'c>>,
    force: bool,
}

/// A document built ahead of its group, with the source range it covers.
#[derive(Clone, Copy)]
pub struct Prebuilt {
    pub doc: DocumentIdx,
    pub start: usize,
    pub end: usize,
}

impl<'code> DocumentBuilder<'code> {
    /// The group bodies name built documents.
    pub open spec fn holds_group(&self, bodies: GroupBodies) -> bool {
        self.holds(bodies.flat) && self.holds(bodies.broken)
    }

    spec fn group_ok(&self, state: &GroupState) -> bool {
        all_below(state.list@, self.docs().len() as int)
    }

    /// Opens a group whose source spans `start..end` and whose first
    /// element starts at `first`.
    fn group_start<'c>(&mut self, comments: &mut CommentMap<'c>, start: usize, end: usize, first: usize) -> (state:
        GroupState<'c>)
        requires
            old(self).ready(old(comments)),
        ensures
            final(self).grows_quietly(old(self)),
            final(comments).kept_from(old(comments)),
            final(self).group_ok(&state),
            !state.started,
    {
        let force = comments.forces_break(&(start..end));
        let open_trailing = self.claim_open_trailing(comments, start, first);
        GroupState {
            list: Vec::new(),
            pending: Vec::new(),
            prev_end_line: 0,
            last_end_byte: start,
            started: false,
            open_trailing,
            force,
        }
    }

    /// Separator, held line comments, line break, blank-line gap, and
    /// leading comments before an element starting at `start`.
    fn group_element_start<'c>(
        &mut self,
        state: &mut GroupState<'c>,
        start: usize,
        comments: &mut CommentMap<'c>,
    )
        requires
            old(self).ready(old(comments)),
            old(self).group_ok(old(state)),
        ensures
            final(self).grows_quietly(old(self)),
            final(comments).kept_from(old(comments)),
            final(comments).claimed_from(
                old(comments),
                |k: int|
                    old(comments).leading_admits(
                        clamped(old(self).source_bytes().len() as int, start as int),
                        false,
                        false,
                        k,
                    ),
                leading_claim(old(comments), old(self).source_bytes().len() as int, start as int),
            ),
            final(self).group_ok(final(state)),
            final(state).started == old(state).started,
            appends(
                final(state).list@,
                old(state).list@,
                final(self).docs(),
                element_start_docs(
                    leading_claim(old(comments), old(self).source_bytes().len() as int, start as int),
                    old(state).started,
                    old(state).pending@,
                    old(state).prev_end_line,
                    old(comments).layout().line_of(start as int),
                ),
            ),
            final(state).pending@ == if old(state).started {
                Seq::empty()
            } else {
                old(state).pending@
            },
            final(state).prev_end_line == old(state).prev_end_line,
            final(state).last_end_byte == old(state).last_end_byte,
            final(state).open_trailing@ == old(state).open_trailing@,
            final(state).force == old(state).force,
    {
        let leading = self.claim_leading(comments, start, false, false);
        proof {
            assert(leading@ =~= leading_claim(old(comments), self.source_bytes().len() as int, start as int));
            lemma_appends_nothing(state.list@, self.docs());
            reveal_strlit(",");
            assert(","@ =~= seq![',']);
        }
        let line = self.line_of(comments, start);
        let effective_start = if leading.len() > 0 {
            leading[0].start_line
        } else {
            line
        };
        let ghost l0 = state.list@;
        let ghost head: Seq<DocumentView> = if state.started {
            seq![DocumentView::Text(seq![','])] + trailing_docs(state.pending@) + seq![DocumentView::Newline]
                + gap_before(Some(state.prev_end_line), effective_start as int)
        } else {
            Seq::empty()
        };
        if state.started {
            let comma = self.text(",");
            proof {
                lemma_appends_push(state.list@, l0, self.docs(), Seq::empty(), comma);
            }
            state.list.push(comma);
            let ghost h1 = seq![DocumentView::Text(seq![','])];
            proof {
                assert(Seq::<DocumentView>::empty().push(DocumentView::Text(seq![','])) =~= h1);
            }
            let ghost l1 = state.list@;
            let ghost d1 = self.docs();
            self.emit_trailing(&state.pending, &mut state.list);
            proof {
                lemma_appends_grows(l1, l0, d1, self.docs(), h1);
                lemma_appends_chain(state.list@, l1, l0, self.docs(), h1, trailing_docs(state.pending@));
            }
            let ghost h2 = h1 + trailing_docs(state.pending@);
            state.pending = Vec::new();
            let ghost d2 = self.docs();
            let line_break = self.newline();
            proof {
                lemma_appends_grows(state.list@, l0, d2, self.docs(), h2);
                lemma_appends_push(state.list@, l0, self.docs(), h2, line_break);
            }
            state.list.push(line_break);
            let ghost h3 = h2.push(DocumentView::Newline);
            if state.prev_end_line < effective_start && effective_start - state.prev_end_line > 1 {
                let ghost d3 = self.docs();
                let gap = self.newline();
                proof {
                    lemma_appends_grows(state.list@, l0, d3, self.docs(), h3);
                    lemma_appends_push(state.list@, l0, self.docs(), h3, gap);
                    assert(h3.push(DocumentView::Newline) =~= head);
                }
                state.list.push(gap);
            } else {
                proof {
                    assert(h3 =~= head);
                }
            }
        }
        let ghost l4 = state.list@;
        let ghost d4 = self.docs();
        self.emit_leading(&leading, line, &mut state.list);
        proof {
            lemma_appends_grows(l4, l0, d4, self.docs(), head);
            lemma_appends_chain(state.list@, l4, l0, self.docs(), head, leading_docs(leading@, line as int));
        }
    }

    /// Adds the element `doc` ending at `end` and claims its trailing
    /// comments.
    fn group_element_end<'c>(
        &mut self,
        state: &mut GroupState<'c>,
        doc: DocumentIdx,
        end: usize,
        comments: &mut CommentMap<'c>,
    )
        requires
            old(self).ready(old(comments)),
            old(self).group_ok(old(state)),
            old(self).holds(doc),
        ensures
            final(self).grows_quietly(old(self)),
            final(comments).kept_from(old(comments)),
            final(self).group_ok(final(state)),
            final(state).started,
            old(state).list@.len() + 1 <= final(state).list@.len(),
            forall|j: int|
                0 <= j < old(state).list@.len() + 1 ==> #[trigger] final(state).list@[j] == old(state).list@.push(
                    doc,
                )[j],
    {
        let ghost pushed = old(state).list@.push(doc);
        state.list.push(doc);
        proof {
            assert(pushed =~= state.list@);
        }
        let end_line = self.line_of(comments, end);
        let trailing = comments.take_trailing(end, end_line);
        state.prev_end_line = if trailing.len() > 0 {
            trailing[trailing.len() - 1].end_line
        } else {
            end_line
        };
        let mut i: usize = 0;
        while i < trailing.len()
            invariant
                i <= trailing@.len(),
                self.grows_quietly(old(self)),
                self.group_ok(state),
                pushed.len() <= state.list@.len(),
                forall|j: int| 0 <= j < pushed.len() ==> #[trigger] state.list@[j] == pushed[j],
            decreases trailing@.len() - i,
        {
            let comment = trailing[i];
            if comment.is_line {
                state.pending.push(comment);
            } else {
                let space = self.text(" ");
                state.list.push(space);
                let raw = self.raw_text(dedented_raw(comment.text));
                state.list.push(raw);
            }
            i = i + 1;
        }
        state.last_end_byte = end;
        state.started = true;
    }

    /// Closes a group whose source ends at `end`: the trailing comma, held
    /// comments, and the scope-trailing comments before the closing
    /// delimiter.
    fn group_finish<'c>(&mut self, state: GroupState<'c>, end: usize, comments: &mut CommentMap<'c>) -> (bodies:
        GroupBodies)
        requires
            old(self).ready(old(comments)),
            old(self).group_ok(&state),
        ensures
            final(self).grows_quietly(old(self)),
            final(comments).kept_from(old(comments)),
            final(self).holds_group(bodies),
            bodies.force == state.force,
            group_bodies_shape(final(self).docs(), bodies, state.list@, final(self).indent_width()),
    {
        let contents = self.list(state.list);
        let mut inner: Vec<DocumentIdx> = Vec::new();
        inner.push(contents);
        // Always a trailing comma when nesting a comma group.
        let comma = self.text(",");
        inner.push(comma);
        self.emit_trailing(&state.pending, &mut inner);
        proof {
            assert(inner@[0] == contents && inner@[1] == comma);
        }
        let rest = self.claim_between(comments, state.last_end_byte, end);
        let mut prev_end_line = state.prev_end_line;
        let mut i: usize = 0;
        while i < rest.len()
            invariant
                i <= rest@.len(),
                self.grows_quietly(old(self)),
                self.holds(contents),
                all_below(inner@, self.docs().len() as int),
                inner@.len() >= 2 && inner@[0] == contents && inner@[1] == comma,
                names(self.docs(), contents, DocumentView::List(state.list@)),
                names(self.docs(), comma, DocumentView::Text(","@)),
            decreases rest@.len() - i,
        {
            let comment = rest[i];
            let line_break = self.newline();
            inner.push(line_break);
            if prev_end_line < comment.start_line && comment.start_line - prev_end_line > 1 {
                let gap = self.newline();
                inner.push(gap);
            }
            let raw = self.raw_text(dedented_raw(comment.text));
            inner.push(raw);
            prev_end_line = comment.end_line;
            i = i + 1;
        }
        let mut nest_list: Vec<DocumentIdx> = Vec::new();
        self.emit_trailing(&state.open_trailing, &mut nest_list);
        let before = self.newline();
        nest_list.push(before);
        let inner_doc = self.list(inner);
        let by = self.indent;
        let nested = self.nest(inner_doc, by);
        nest_list.push(nested);
        let after = self.newline();
        nest_list.push(after);
        let ghost nested_view = self.docs()[nested.0 as int];
        let flat = self.flatten(contents);
        let broken = self.list(nest_list);
        proof {
            let nl = nest_list@;
            assert(nl[nl.len() - 1] == after);
            assert(nl[nl.len() - 2] == nested);
            assert(nl[nl.len() - 3] == before);
        }
        GroupBodies { flat, broken, force: state.force }
    }

    /// The bodies of a group without elements: the comments between its
    /// delimiters print side by side in the flat body and one per line in
    /// the broken one. Both bodies are empty when there are none, so the
    /// delimiters close on themselves.
    fn empty_group(&mut self, start: usize, end: usize, comments: &mut CommentMap) -> (bodies:
        GroupBodies)
        requires
            old(self).ready(old(comments)),
        ensures
            final(self).grows_quietly(old(self)),
            final(comments).kept_from(old(comments)),
            final(self).holds_group(bodies),
    {
        let force = comments.forces_break(&(start..end));
        let inside = self.claim_within(comments, start, end);
        if inside.len() == 0 {
            let flat = self.empty();
            let broken = self.empty();
            return GroupBodies { flat, broken, force: false };
        }
        let mut flat_list: Vec<DocumentIdx> = Vec::new();
        let mut i: usize = 0;
        while i < inside.len()
            invariant
                i <= inside@.len(),
                self.grows_quietly(old(self)),
                all_below(flat_list@, self.docs().len() as int),
            decreases inside@.len() - i,
        {
            if i > 0 {
                let space = self.text(" ");
                flat_list.push(space);
            }
            let raw = self.raw_text(dedented_raw(inside[i].text));
            flat_list.push(raw);
            i = i + 1;
        }
        let mut broken_list: Vec<DocumentIdx> = Vec::new();
        self.emit_scope_trailing(&inside, None, &mut broken_list);
        let before = self.newline();
        let broken_body = self.list(broken_list);
        let by = self.indent;
        let nested = self.nest(broken_body, by);
        let after = self.newline();
        let broken = self.list(vec![before, nested, after]);
        let flat_body = self.list(flat_list);
        let flat = self.flatten(flat_body);
        GroupBodies { flat, broken, force }
    }

    /// `open`, the bodies, and `close`: the broken layout when a comment
    /// forces it, else the flat one if it fits and the broken one if not.
    fn wrap_group(&mut self, open: &str, bodies: GroupBodies, close: &str) -> (idx: DocumentIdx)
        requires
            old(self).wf(),
            old(self).holds_group(bodies),
        ensures
            final(self).grows_quietly(old(self)),
            final(self).holds(idx),
            bodies.force ==> delimited(final(self).docs(), idx.0 as int, open@, bodies.broken, close@),
            !bodies.force ==> (final(self).docs()[idx.0 as int] matches DocumentView::TryCatch(
                flat,
                broken,
            ) && delimited(final(self).docs(), flat.0 as int, open@, bodies.flat, close@) && delimited(
                final(self).docs(),
                broken.0 as int,
                open@,
                bodies.broken,
                close@,
            )),
    {
        let open_doc = self.text(open);
        let close_doc = self.text(close);
        let catch_doc = self.list(vec![open_doc, bodies.broken, close_doc]);
        if bodies.force {
            return catch_doc;
        }
        let try_doc = self.list(vec![open_doc, bodies.flat, close_doc]);
        self.try_catch(try_doc, catch_doc)
    }

    /// The group bodies of documents built ahead (match arms, `use`
    /// entries) in a group spanning `start..end`.
    fn group_raw_prebuilt(&mut self, start: usize, end: usize, items: &Vec<Prebuilt>, comments: &mut CommentMap) -> (bodies:
        GroupBodies)
        requires
            old(self).ready(old(comments)),
            forall|i: int| 0 <= i < items@.len() ==> old(self).holds(#[trigger] items@[i].doc),
        ensures
            final(self).grows_quietly(old(self)),
            final(comments).kept_from(old(comments)),
            final(self).holds_group(bodies),
            items@.len() > 0 ==> group_holds_in_order(
                final(self).docs(),
                bodies,
                Seq::new(items@.len(), |k: int| items@[k].doc),
                final(self).indent_width(),
            ),
    {
        if items.len() == 0 {
            return self.empty_group(start, end, comments);
        }
        let mut state = self.group_start(comments, start, end, items[0].start);
        let ghost mut elems: Seq<DocumentIdx> = Seq::empty();
        let mut i: usize = 0;
        while i < items.len()
            invariant
                i <= items@.len(),
                forall|k: int| 0 <= k < items@.len() ==> old(self).holds(#[trigger] items@[k].doc),
                self.grows_quietly(old(self)),
                comments.kept_from(old(comments)),
                self.ready(comments),
                self.group_ok(&state),
                elems.len() == i,
                forall|k: int| 0 <= k < i ==> #[trigger] elems[k] == items@[k].doc,
                in_order(elems, state.list@),
                self.indent_width() == old(self).indent_width(),
            decreases items@.len() - i,
        {
            let item = items[i];
            let ghost l0 = state.list@;
            self.group_element_start(&mut state, item.start, comments);
            proof {
                lemma_in_order_extend(elems, l0, state.list@);
            }
            let ghost l1 = state.list@;
            self.group_element_end(&mut state, item.doc, item.end, comments);
            proof {
                lemma_in_order_push_both(elems, l1, item.doc);
                lemma_in_order_extend(elems.push(item.doc), l1.push(item.doc), state.list@);
                elems = elems.push(item.doc);
            }
            i = i + 1;
        }
        let bodies = self.group_finish(state, end, comments);
        proof {
            assert(elems =~= Seq::new(items@.len(), |k: int| items@[k].doc));
            assert(group_holds_in_order(self.docs(), bodies, elems, self.indent_width()));
        }
        bodies
    }
}


/// The source byte range a construct occupies; claims and gap checks key
/// off it.
pub trait HasSourceRange {
    /// The range as a pair of byte offsets.
    spec fn source_range(&self) -> (int, int);

    fn byte_range(&self) -> (range: Range<usize>)
        ensures
            range.start == self.source_range().0,
            range.end == self.source_range().1,
    ;
}

impl HasSourceRange for Span {
    open spec fn source_range(&self) -> (int, int) {
        (self.start as int, self.end as int)
    }

    fn byte_range(&self) -> (range: Range<usize>) {
        self.start..self.end
    }
}

impl<T> HasSourceRange for Loc<T> {
    open spec fn source_range(&self) -> (int, int) {
        (self.span.start as int, self.span.end as int)
    }

    fn byte_range(&self) -> (range: Range<usize>) {
        self.span.start..self.span.end
    }
}

impl HasSourceRange for EnumVariant {
    /// From the first attribute (or the name) to the end of the arguments
    /// (or the name).
    open spec fn source_range(&self) -> (int, int) {
        let start = if self.attributes.0@.len() > 0 {
            self.attributes.0@[0].span.start
        } else {
            self.name.span.start
        };
        let end = match self.args {
            Some(args) => args.span.end,
            None => self.name.span.end,
        };
        (start as int, end as int)
    }

    fn byte_range(&self) -> (range: Range<usize>) {
        let start = if self.attributes.0.len() > 0 {
            self.attributes.0[0].span.start
        } else {
            self.name.span.start
        };
        let end = match &self.args {
            Some(args) => args.span.end,
            None => self.name.span.end,
        };
        start..end
    }
}

impl HasSourceRange for NamedArgument {
    /// From the name to the end of the value.
    open spec fn source_range(&self) -> (int, int) {
        match self {
            NamedArgument::Full(name, value) => (name.span.start as int, value.span.end as int),
            NamedArgument::Short(name) => (name.span.start as int, name.span.end as int),
        }
    }

    fn byte_range(&self) -> (range: Range<usize>) {
        match self {
            NamedArgument::Full(name, value) => name.span.start..value.span.end,
            NamedArgument::Short(name) => name.span.start..name.span.end,
        }
    }
}

impl HasSourceRange for Parameter {
    /// From the first attribute (or the `wire` marker, or the name) to the
    /// end of the type.
    open spec fn source_range(&self) -> (int, int) {
        let start = if self.0.0@.len() > 0 {
            self.0.0@[0].span.start
        } else {
            match self.1 {
                Some(wire) => wire.start,
                None => self.2.span.start,
            }
        };
        (start as int, self.3.span.end as int)
    }

    fn byte_range(&self) -> (range: Range<usize>) {
        let start = if self.0.0.len() > 0 {
            self.0.0[0].span.start
        } else {
            match self.1 {
                Some(wire) => wire.start,
                None => self.2.span.start,
            }
        };
        start..self.3.span.end
    }
}

impl HasSourceRange for NamedPatternArgument {
    /// From the name to the end of the pattern (or the name).
    open spec fn source_range(&self) -> (int, int) {
        let end = match self.1 {
            Some(pattern) => pattern.span.end,
            None => self.0.span.end,
        };
        (self.0.span.start as int, end as int)
    }

    fn byte_range(&self) -> (range: Range<usize>) {
        let end = match &self.1 {
            Some(pattern) => pattern.span.end,
            None => self.0.span.end,
        };
        self.0.span.start..end
    }
}

impl HasSourceRange for ArrayElement {
    /// From the label (or the value) to the end of the value.
    open spec fn source_range(&self) -> (int, int) {
        let start = match self.0 {
            Some(label) => label.span.start,
            None => self.1.span.start,
        };
        (start as int, self.1.span.end as int)
    }

    fn byte_range(&self) -> (range: Range<usize>) {
        let start = match &self.0 {
            Some(label) => label.span.start,
            None => self.1.span.start,
        };
        start..self.1.span.end
    }
}

/// `span` extended back over the construct's attributes and docs; the
/// parser starts every item and statement span at the keyword, after them.
pub fn attributed_span(attributes: &AttributeList, span: Span) -> (merged: Span)
    ensures
        attributes.0@.len() == 0 ==> merged == span,
        attributes.0@.len() > 0 ==> merged == (Span {
            start: if attributes.0@[0].span.start < span.start {
                attributes.0@[0].span.start
            } else {
                span.start
            },
            end: if attributes.0@[0].span.end > span.end {
                attributes.0@[0].span.end
            } else {
                span.end
            },
        }),
{
    if attributes.0.len() == 0 {
        return span;
    }
    let first = attributes.0[0].span;
    Span {
        start: if first.start < span.start {
            first.start
        } else {
            span.start
        },
        end: if first.end > span.end {
            first.end
        } else {
            span.end
        },
    }
}

/// The attributes of a type declaration, whichever kind it is.
pub fn type_declaration_attributes(declaration: &TypeDeclaration) -> (attributes: &AttributeList)
    ensures
        attributes == match declaration.kind {
            TypeDeclKind::Enum(e) => e.inner.attributes,
            TypeDeclKind::Struct(s) => s.inner.attributes,
            TypeDeclKind::Alias(a) => a.inner.attributes,
        },
{
    match &declaration.kind {
        TypeDeclKind::Enum(enum_decl) => &enum_decl.inner.attributes,
        TypeDeclKind::Struct(struct_decl) => &struct_decl.inner.attributes,
        TypeDeclKind::Alias(alias) => &alias.inner.attributes,
    }
}

/// The source span of an item, its attributes and docs included.
/// The span an item's layout covers: its attributes and itself.
pub open spec fn item_span(item: Item) -> Span {
    match item {
        Item::Unit(unit) => attributed_span_spec(unit.inner.head.attributes, unit.span),
        Item::MacroDef(m) => attributed_span_spec(m.inner.attributes, m.span),
        Item::TraitDef(t) => attributed_span_spec(t.inner.attributes, t.span),
        Item::Type(ty) => attributed_span_spec(type_declaration_attributes_spec(ty.inner), ty.span),
        Item::ExternalMod(m) => attributed_span_spec(m.inner.attributes, m.span),
        Item::Module(m) => attributed_span_spec(m.inner.attributes, m.span),
        Item::Use(attributes, uses) => attributed_span_spec(attributes, uses.span),
        Item::ImplBlock(block) => block.span,
    }
}

pub fn span_of_item(item: &Item) -> (span: Span)
    ensures
        span == item_span(*item),
        span == match item {
            Item::Unit(unit) => attributed_span_spec(unit.inner.head.attributes, unit.span),
            Item::MacroDef(m) => attributed_span_spec(m.inner.attributes, m.span),
            Item::TraitDef(t) => attributed_span_spec(t.inner.attributes, t.span),
            Item::Type(ty) => attributed_span_spec(
                type_declaration_attributes_spec(ty.inner),
                ty.span,
            ),
            Item::ExternalMod(m) => attributed_span_spec(m.inner.attributes, m.span),
            Item::Module(m) => attributed_span_spec(m.inner.attributes, m.span),
            Item::Use(attributes, uses) => attributed_span_spec(*attributes, uses.span),
            Item::ImplBlock(block) => block.span,
        },
{
    match item {
        Item::Unit(unit) => attributed_span(&unit.inner.head.attributes, unit.span),
        Item::MacroDef(macro_def) => attributed_span(&macro_def.inner.attributes, macro_def.span),
        Item::TraitDef(trait_def) => attributed_span(&trait_def.inner.attributes, trait_def.span),
        Item::Type(ty) => attributed_span(type_declaration_attributes(&ty.inner), ty.span),
        Item::ExternalMod(module) => attributed_span(&module.inner.attributes, module.span),
        Item::Module(module) => attributed_span(&module.inner.attributes, module.span),
        Item::Use(attributes, uses) => attributed_span(attributes, uses.span),
        Item::ImplBlock(block) => block.span,
    }
}

/// [`attributed_span`] as a specification.
pub open spec fn attributed_span_spec(attributes: AttributeList, span: Span) -> Span {
    if attributes.0@.len() == 0 {
        span
    } else {
        Span {
            start: if attributes.0@[0].span.start < span.start {
                attributes.0@[0].span.start
            } else {
                span.start
            },
            end: if attributes.0@[0].span.end > span.end {
                attributes.0@[0].span.end
            } else {
                span.end
            },
        }
    }
}

/// [`type_declaration_attributes`] as a specification.
pub open spec fn type_declaration_attributes_spec(declaration: TypeDeclaration) -> AttributeList {
    match declaration.kind {
        TypeDeclKind::Enum(e) => e.inner.attributes,
        TypeDeclKind::Struct(s) => s.inner.attributes,
        TypeDeclKind::Alias(a) => a.inner.attributes,
    }
}

/// The source span of a statement, its attributes included.
pub fn span_of_statement(statement: &Loc<Statement>) -> (span: Span)
    ensures
        span == match statement.inner {
            Statement::Binding(binding) => attributed_span_spec(binding.attrs, statement.span),
            Statement::Register(register) => attributed_span_spec(
                register.inner.attributes,
                statement.span,
            ),
            Statement::Expression(_, attributes) => attributed_span_spec(attributes, statement.span),
            Statement::Type(ty) => attributed_span_spec(
                type_declaration_attributes_spec(ty.inner),
                statement.span,
            ),
            _ => statement.span,
        },
{
    match &statement.inner {
        Statement::Binding(binding) => attributed_span(&binding.attrs, statement.span),
        Statement::Register(register) => attributed_span(&register.inner.attributes, statement.span),
        Statement::Expression(_, attributes) => attributed_span(attributes, statement.span),
        Statement::Type(ty) => attributed_span(type_declaration_attributes(&ty.inner), statement.span),
        _ => statement.span,
    }
}

/// Whether an attribute list holds a `///` doc.
fn has_doc(attributes: &AttributeList) -> (found: bool)
    ensures
        found == exists|i: int|
            0 <= i < attributes.0@.len() && (#[trigger] attributes.0@[i]).inner is Documentation,
{
    let mut i: usize = 0;
    while i < attributes.0.len()
        invariant
            i <= attributes.0@.len(),
            forall|k: int| 0 <= k < i ==> !((#[trigger] attributes.0@[k]).inner is Documentation),
        decreases attributes.0@.len() - i,
    {
        if let Attribute::Documentation { .. } = &attributes.0[i].inner {
            return true;
        }
        i = i + 1;
    }
    false
}

/// Whether any parameter (`self` included) carries a `///` doc, which
/// renders as a line comment and so rules out any flat layout.
pub fn parameters_have_doc(parameters: &ParameterList) -> (found: bool)
    ensures
        found == ((parameters.self_ matches Some(p) && exists|i: int|
            0 <= i < p.0.inner.0@.len() && (#[trigger] p.0.inner.0@[i]).inner is Documentation)
            || exists|j: int, i: int|
            0 <= j < parameters.args@.len() && 0 <= i < parameters.args@[j].0.0@.len() && (
            #[trigger] parameters.args@[j].0.0@[i]).inner is Documentation),
{
    if let Some(self_parameter) = &parameters.self_ {
        if has_doc(&self_parameter.0.inner) {
            return true;
        }
    }
    let mut j: usize = 0;
    while j < parameters.args.len()
        invariant
            j <= parameters.args@.len(),
            !(parameters.self_ matches Some(p) && exists|i: int|
                0 <= i < p.0.inner.0@.len() && (#[trigger] p.0.inner.0@[i]).inner is Documentation),
            forall|k: int, i: int|
                0 <= k < j && 0 <= i < parameters.args@[k].0.0@.len() ==> !((
                #[trigger] parameters.args@[k].0.0@[i]).inner is Documentation),
        decreases parameters.args@.len() - j,
    {
        if has_doc(&parameters.args[j].0) {
            return true;
        }
        j = j + 1;
    }
    false
}

impl<'code> DocumentBuilder<'code> {
    /// `a` and `b` as one text.
    fn text2(&mut self, a: &str, b: &str) -> (idx: DocumentIdx)
        requires
            old(self).wf(),
        ensures
            final(self).grows_quietly(old(self)),
            final(self).holds(idx),
            final(self).docs()[idx.0 as int] == DocumentView::Text(a@ + b@),
    {
        self.text_owned(concat(a, b))
    }

    pub fn build_attribute(&mut self, attribute: &Loc<Attribute>) -> (idx: DocumentIdx)
        requires
            old(self).wf(),
        ensures
            final(self).grows_quietly(old(self)),
            final(self).holds(idx),
            attribute_doc(old(self).source_bytes(), final(self).docs(), idx.0 as int, attribute.inner),
    {
        let ghost src = self.source_bytes();
        match &attribute.inner {
            Attribute::Optimize { passes } => {
                let mut text = owned("#[optimize(");
                let mut i: usize = 0;
                proof {
                    assert(passes@.take(0) =~= Seq::<String>::empty());
                }
                while i < passes.len()
                    invariant
                        i <= passes@.len(),
                        text@ == "#[optimize("@ + comma_joined(passes@.take(i as int)),
                    decreases passes@.len() - i,
                {
                    let ghost before = text@;
                    proof {
                        let t = passes@.take(i + 1);
                        assert(t.drop_last() =~= passes@.take(i as int));
                        assert(t.last() == passes@[i as int]);
                        if i == 0 {
                            assert(t =~= seq![passes@[0]]);
                        }
                    }
                    if i > 0 {
                        text.append(", ");
                    }
                    text.append(passes[i].as_str());
                    proof {
                        if i == 0 {
                            assert(comma_joined(passes@.take(0)) =~= Seq::<char>::empty());
                            assert(text@ =~= "#[optimize("@ + comma_joined(passes@.take(1)));
                        } else {
                            assert(text@ =~= "#[optimize("@ + comma_joined(passes@.take(i + 1)));
                        }
                    }
                    i = i + 1;
                }
                proof {
                    assert(passes@.take(passes@.len() as int) =~= passes@);
                }
                text.append(")]");
                self.text_owned(text)
            },
            Attribute::NoMangle { all } => {
                if *all {
                    self.text("#[no_mangle(all)]")
                } else {
                    self.text("#[no_mangle]")
                }
            },
            Attribute::Fsm { state } => match state {
                Some(state) => {
                    let name = self.identifier_text(state);
                    self.text_owned(concat3("#[fsm(", name.as_str(), ")]"))
                },
                None => self.text("#[fsm]"),
            },
            Attribute::Documentation { content } => self.text2("///", content.as_str()),
            Attribute::SurferTranslator(name) => {
                let open = self.text("#[surfer_translator(");
                let value = self.string_literal(name);
                let close = self.text(")]");
                self.list(vec![open, value, close])
            },
            Attribute::SpadecParenSugar => self.text("#[spadec_paren_sugar]"),
            Attribute::Inline => self.text("#[inline]"),
            // `(note = "..")` parses to the same tree as `= ".."` and prints
            // as the latter; named arguments parse in any order and print
            // as `since, note`.
            Attribute::Deprecated { since, note } => match (since, note) {
                (None, None) => self.text("#[deprecated]"),
                (None, Some(note)) => {
                    let open = self.text("#[deprecated = ");
                    let value = self.string_literal(note);
                    let close = self.text("]");
                    self.list(vec![open, value, close])
                },
                (Some(since), None) => {
                    let open = self.text("#[deprecated(since = ");
                    let value = self.string_literal(since);
                    let close = self.text(")]");
                    self.list(vec![open, value, close])
                },
                (Some(since), Some(note)) => {
                    let open = self.text("#[deprecated(since = ");
                    let since_value = self.string_literal(since);
                    let middle = self.text(", note = ");
                    let note_value = self.string_literal(note);
                    let close = self.text(")]");
                    self.list(vec![open, since_value, middle, note_value, close])
                },
            },
            Attribute::VerilogAttrs { entries } => {
                let mut list: Vec<DocumentIdx> = Vec::new();
                proof {
                    lemma_appends_nothing(list@, self.docs());
                }
                let open = self.text("#[verilog_attrs(");
                proof {
                    lemma_appends_push(list@, Seq::empty(), self.docs(), Seq::empty(), open);
                    assert(Seq::<DocumentView>::empty().push(DocumentView::Text("#[verilog_attrs("@))
                        =~= seq![DocumentView::Text("#[verilog_attrs("@)]);
                    assert(entries@.take(0) =~= Seq::<VerilogAttr>::empty());
                    assert(seq![DocumentView::Text("#[verilog_attrs("@)] + verilog_entry_docs(src, Seq::empty())
                        =~= seq![DocumentView::Text("#[verilog_attrs("@)]);
                }
                list.push(open);
                let mut i: usize = 0;
                while i < entries.len()
                    invariant
                        i <= entries@.len(),
                        self.grows_quietly(old(self)),
                        src == self.source_bytes(),
                        all_below(list@, self.docs().len() as int),
                        appends(
                            list@,
                            Seq::empty(),
                            self.docs(),
                            seq![DocumentView::Text("#[verilog_attrs("@)] + verilog_entry_docs(
                                src,
                                entries@.take(i as int),
                            ),
                        ),
                    decreases entries@.len() - i,
                {
                    let ghost a0 = seq![DocumentView::Text("#[verilog_attrs("@)] + verilog_entry_docs(
                        src,
                        entries@.take(i as int),
                    );
                    proof {
                        let t = entries@.take(i + 1);
                        assert(t.drop_last() =~= entries@.take(i as int));
                        assert(t.last() == entries@[i as int]);
                    }
                    let ghost mut a1 = a0;
                    if i > 0 {
                        let ghost d = self.docs();
                        let comma = self.text(", ");
                        proof {
                            lemma_appends_grows(list@, Seq::empty(), d, self.docs(), a0);
                            lemma_appends_push(list@, Seq::empty(), self.docs(), a0, comma);
                            a1 = a0.push(DocumentView::Text(", "@));
                        }
                        list.push(comma);
                    }
                    let ghost d1 = self.docs();
                    let key = self.identifier(&entries[i].0);
                    proof {
                        lemma_appends_grows(list@, Seq::empty(), d1, self.docs(), a1);
                        lemma_appends_push(list@, Seq::empty(), self.docs(), a1, key);
                    }
                    list.push(key);
                    let ghost a2 = a1.push(DocumentView::Text(identifier_spelling(src, entries@[i as int].0)));
                    let ghost mut a3 = a2;
                    if let Some(value) = &entries[i].1 {
                        let ghost d2 = self.docs();
                        let equals = self.text(" = ");
                        proof {
                            lemma_appends_grows(list@, Seq::empty(), d2, self.docs(), a2);
                            lemma_appends_push(list@, Seq::empty(), self.docs(), a2, equals);
                        }
                        list.push(equals);
                        let ghost d3 = self.docs();
                        let value_doc = self.string_literal(value);
                        proof {
                            let a2e = a2.push(DocumentView::Text(" = "@));
                            lemma_appends_grows(list@, Seq::empty(), d3, self.docs(), a2e);
                            lemma_appends_push(list@, Seq::empty(), self.docs(), a2e, value_doc);
                            a3 = a2e.push(DocumentView::Verbatim(seq!['"'] + value@ + seq!['"']));
                        }
                        list.push(value_doc);
                    }
                    proof {
                        assert(a3 =~= seq![DocumentView::Text("#[verilog_attrs("@)] + verilog_entry_docs(
                            src,
                            entries@.take(i + 1),
                        ));
                    }
                    i = i + 1;
                }
                proof {
                    assert(entries@.take(entries@.len() as int) =~= entries@);
                }
                let ghost a = seq![DocumentView::Text("#[verilog_attrs("@)] + verilog_entry_docs(src, entries@);
                let ghost d4 = self.docs();
                let close = self.text(")]");
                proof {
                    lemma_appends_grows(list@, Seq::empty(), d4, self.docs(), a);
                    lemma_appends_push(list@, Seq::empty(), self.docs(), a, close);
                }
                list.push(close);
                let ghost l = list@;
                let ghost d5 = self.docs();
                let idx = self.list(list);
                proof {
                    lemma_appends_grows(l, Seq::empty(), d5, self.docs(), a.push(DocumentView::Text(")]"@)));
                }
                idx
            },
        }
    }

    pub fn build_attribute_list(
        &mut self,
        attribute_list: &AttributeList,
        always_newline: bool,
        comments: &mut CommentMap,
    ) -> (idx: DocumentIdx)
        requires
            old(self).ready(old(comments)),
        ensures
            built(final(self), old(self), final(comments), old(comments), idx),
            final(self).reported() == old(self).reported(),
    {
        let multiple = attribute_list.0.len() > 1;
        let mut list: Vec<DocumentIdx> = Vec::new();
        let mut i: usize = 0;
        while i < attribute_list.0.len()
            invariant
                i <= attribute_list.0@.len(),
                self.grows_quietly(old(self)),
                comments.kept_from(old(comments)),
                self.ready(comments),
                all_below(list@, self.docs().len() as int),
            decreases attribute_list.0@.len() - i,
        {
            let attribute = &attribute_list.0[i];
            // A comment between attribute or doc lines stays there.
            let start = attribute.span.start;
            let leading = self.claim_leading(comments, start, false, false);
            let line = self.line_of(comments, start);
            self.emit_leading(&leading, line, &mut list);
            let attribute_doc = self.build_attribute(attribute);
            list.push(attribute_doc);
            // A `///` doc renders as a line comment and must end its line
            // even in inline positions; the enclosing layout is forced
            // broken via `parameters_have_doc`.
            let is_doc = match &attribute.inner {
                Attribute::Documentation { .. } => true,
                _ => false,
            };
            let after = if multiple || always_newline || is_doc {
                self.newline()
            } else {
                self.text(" ")
            };
            list.push(after);
            i = i + 1;
        }
        self.list(list)
    }
}


impl<'code> DocumentBuilder<'code> {
    fn group_exprs<'c>(
        &mut self,
        start: usize,
        end: usize,
        items: &Vec<Loc<Expression>>,
        comments: &mut CommentMap<'c>,
    ) -> (bodies: GroupBodies)
        requires
            old(self).ready(old(comments)),
        ensures
            expressions_ok(old(self).source_bytes(), items@, items@.len() as int) <==> final(self).reported() == old(self).reported(),
            final(self).grows(old(self)),
            final(comments).kept_from(old(comments)),
            final(self).holds_group(bodies),
            items@.len() > 0 ==> exists|elements: Seq<DocumentIdx>|
                elements.len() == items@.len() && #[trigger] group_holds_in_order(
                    final(self).docs(),
                    bodies,
                    elements,
                    final(self).indent_width(),
                ),
        decreases items, 0int,
    {
        let count: usize = items.len();
        if count == 0 {
            return self.empty_group(start, end, comments);
        }
        let first = items[0].byte_range();
        let mut state = self.group_start(comments, start, end, first.start);
        let ghost mut elems: Seq<DocumentIdx> = Seq::empty();
        let mut i: usize = 0;
        while i < count
            invariant
                i <= count <= items@.len(),
                self.grows(old(self)),
                comments.kept_from(old(comments)),
                self.ready(comments),
                self.group_ok(&state),
                elems.len() == i,
                in_order(elems, state.list@),
                self.indent_width() == old(self).indent_width(),
                (self.reported() == old(self).reported()) <==> expressions_ok(old(self).source_bytes(), items@, i as int),
            decreases count - i,
        {
            let item = &items[i];
            let range = item.byte_range();
            let ghost l0 = state.list@;
            self.group_element_start(&mut state, range.start, comments);
            proof {
                lemma_in_order_extend(elems, l0, state.list@);
            }
            let ghost l1 = state.list@;
            let doc = self.build_expression(item, comments);
            self.group_element_end(&mut state, doc, range.end, comments);
            proof {
                lemma_in_order_push_both(elems, l1, doc);
                lemma_in_order_extend(elems.push(doc), l1.push(doc), state.list@);
                elems = elems.push(doc);
            }
            i = i + 1;
        }
        let bodies = self.group_finish(state, end, comments);
        proof {
            assert(group_holds_in_order(self.docs(), bodies, elems, self.indent_width()));
        }
        bodies
    }

    fn group_array_elements<'c>(
        &mut self,
        start: usize,
        end: usize,
        items: &Vec<ArrayElement>,
        comments: &mut CommentMap<'c>,
    ) -> (bodies: GroupBodies)
        requires
            old(self).ready(old(comments)),
        ensures
            array_elements_ok(old(self).source_bytes(), items@, items@.len() as int) <==> final(self).reported() == old(self).reported(),
            final(self).grows(old(self)),
            final(comments).kept_from(old(comments)),
            final(self).holds_group(bodies),
            items@.len() > 0 ==> exists|elements: Seq<DocumentIdx>|
                elements.len() == items@.len() && #[trigger] group_holds_in_order(
                    final(self).docs(),
                    bodies,
                    elements,
                    final(self).indent_width(),
                ),
        decreases items, 0int,
    {
        let count: usize = items.len();
        if count == 0 {
            return self.empty_group(start, end, comments);
        }
        let first = items[0].byte_range();
        let mut state = self.group_start(comments, start, end, first.start);
        let ghost mut elems: Seq<DocumentIdx> = Seq::empty();
        let mut i: usize = 0;
        while i < count
            invariant
                i <= count <= items@.len(),
                self.grows(old(self)),
                comments.kept_from(old(comments)),
                self.ready(comments),
                self.group_ok(&state),
                elems.len() == i,
                in_order(elems, state.list@),
                self.indent_width() == old(self).indent_width(),
                (self.reported() == old(self).reported()) <==> array_elements_ok(old(self).source_bytes(), items@, i as int),
            decreases count - i,
        {
            let item = &items[i];
            let range = item.byte_range();
            let ghost l0 = state.list@;
            self.group_element_start(&mut state, range.start, comments);
            proof {
                lemma_in_order_extend(elems, l0, state.list@);
            }
            let ghost l1 = state.list@;
            let doc = self.build_array_element(item, comments);
            self.group_element_end(&mut state, doc, range.end, comments);
            proof {
                lemma_in_order_push_both(elems, l1, doc);
                lemma_in_order_extend(elems.push(doc), l1.push(doc), state.list@);
                elems = elems.push(doc);
            }
            i = i + 1;
        }
        let bodies = self.group_finish(state, end, comments);
        proof {
            assert(group_holds_in_order(self.docs(), bodies, elems, self.indent_width()));
        }
        bodies
    }

    fn group_type_exprs<'c>(
        &mut self,
        start: usize,
        end: usize,
        items: &Vec<Loc<TypeExpression>>,
        n: usize,
        comments: &mut CommentMap<'c>,
    ) -> (bodies: GroupBodies)
        requires
            old(self).ready(old(comments)),
            n <= items@.len(),
        ensures
            type_expressions_ok(old(self).source_bytes(), items@, n as int) <==> final(self).reported() == old(self).reported(),
            final(self).grows(old(self)),
            final(comments).kept_from(old(comments)),
            final(self).holds_group(bodies),
            n as int > 0 ==> exists|elements: Seq<DocumentIdx>|
                elements.len() == n as int && #[trigger] group_holds_in_order(
                    final(self).docs(),
                    bodies,
                    elements,
                    final(self).indent_width(),
                ),
        decreases items, 0int,
    {
        let count: usize = n;
        if count == 0 {
            return self.empty_group(start, end, comments);
        }
        let first = items[0].byte_range();
        let mut state = self.group_start(comments, start, end, first.start);
        let ghost mut elems: Seq<DocumentIdx> = Seq::empty();
        let mut i: usize = 0;
        while i < count
            invariant
                i <= count <= items@.len(),
                self.grows(old(self)),
                comments.kept_from(old(comments)),
                self.ready(comments),
                self.group_ok(&state),
                elems.len() == i,
                in_order(elems, state.list@),
                self.indent_width() == old(self).indent_width(),
                (self.reported() == old(self).reported()) <==> type_expressions_ok(old(self).source_bytes(), items@, i as int),
            decreases count - i,
        {
            let item = &items[i];
            let range = item.byte_range();
            let ghost l0 = state.list@;
            self.group_element_start(&mut state, range.start, comments);
            proof {
                lemma_in_order_extend(elems, l0, state.list@);
            }
            let ghost l1 = state.list@;
            let doc = self.build_type_expression(item, comments);
            self.group_element_end(&mut state, doc, range.end, comments);
            proof {
                lemma_in_order_push_both(elems, l1, doc);
                lemma_in_order_extend(elems.push(doc), l1.push(doc), state.list@);
                elems = elems.push(doc);
            }
            i = i + 1;
        }
        let bodies = self.group_finish(state, end, comments);
        proof {
            assert(group_holds_in_order(self.docs(), bodies, elems, self.indent_width()));
        }
        bodies
    }

    fn group_type_params<'c>(
        &mut self,
        start: usize,
        end: usize,
        items: &Vec<Loc<TypeParam>>,
        comments: &mut CommentMap<'c>,
    ) -> (bodies: GroupBodies)
        requires
            old(self).ready(old(comments)),
        ensures
            type_params_ok(old(self).source_bytes(), items@, items@.len() as int) <==> final(self).reported() == old(self).reported(),
            final(self).grows(old(self)),
            final(comments).kept_from(old(comments)),
            final(self).holds_group(bodies),
            items@.len() > 0 ==> exists|elements: Seq<DocumentIdx>|
                elements.len() == items@.len() && #[trigger] group_holds_in_order(
                    final(self).docs(),
                    bodies,
                    elements,
                    final(self).indent_width(),
                ),
        decreases items, 0int,
    {
        let count: usize = items.len();
        if count == 0 {
            return self.empty_group(start, end, comments);
        }
        let first = items[0].byte_range();
        let mut state = self.group_start(comments, start, end, first.start);
        let ghost mut elems: Seq<DocumentIdx> = Seq::empty();
        let mut i: usize = 0;
        while i < count
            invariant
                i <= count <= items@.len(),
                self.grows(old(self)),
                comments.kept_from(old(comments)),
                self.ready(comments),
                self.group_ok(&state),
                elems.len() == i,
                in_order(elems, state.list@),
                self.indent_width() == old(self).indent_width(),
                (self.reported() == old(self).reported()) <==> type_params_ok(old(self).source_bytes(), items@, i as int),
            decreases count - i,
        {
            let item = &items[i];
            let range = item.byte_range();
            let ghost l0 = state.list@;
            self.group_element_start(&mut state, range.start, comments);
            proof {
                lemma_in_order_extend(elems, l0, state.list@);
            }
            let ghost l1 = state.list@;
            let doc = self.build_type_param(item, comments);
            self.group_element_end(&mut state, doc, range.end, comments);
            proof {
                lemma_in_order_push_both(elems, l1, doc);
                lemma_in_order_extend(elems.push(doc), l1.push(doc), state.list@);
                elems = elems.push(doc);
            }
            i = i + 1;
        }
        let bodies = self.group_finish(state, end, comments);
        proof {
            assert(group_holds_in_order(self.docs(), bodies, elems, self.indent_width()));
        }
        bodies
    }

    fn group_named_args<'c>(
        &mut self,
        start: usize,
        end: usize,
        items: &Vec<NamedArgument>,
        comments: &mut CommentMap<'c>,
    ) -> (bodies: GroupBodies)
        requires
            old(self).ready(old(comments)),
        ensures
            named_arguments_ok(old(self).source_bytes(), items@, items@.len() as int) <==> final(self).reported() == old(self).reported(),
            final(self).grows(old(self)),
            final(comments).kept_from(old(comments)),
            final(self).holds_group(bodies),
            items@.len() > 0 ==> exists|elements: Seq<DocumentIdx>|
                elements.len() == items@.len() && #[trigger] group_holds_in_order(
                    final(self).docs(),
                    bodies,
                    elements,
                    final(self).indent_width(),
                ),
        decreases items, 0int,
    {
        let count: usize = items.len();
        if count == 0 {
            return self.empty_group(start, end, comments);
        }
        let first = items[0].byte_range();
        let mut state = self.group_start(comments, start, end, first.start);
        let ghost mut elems: Seq<DocumentIdx> = Seq::empty();
        let mut i: usize = 0;
        while i < count
            invariant
                i <= count <= items@.len(),
                self.grows(old(self)),
                comments.kept_from(old(comments)),
                self.ready(comments),
                self.group_ok(&state),
                elems.len() == i,
                in_order(elems, state.list@),
                self.indent_width() == old(self).indent_width(),
                (self.reported() == old(self).reported()) <==> named_arguments_ok(old(self).source_bytes(), items@, i as int),
            decreases count - i,
        {
            let item = &items[i];
            let range = item.byte_range();
            let ghost l0 = state.list@;
            self.group_element_start(&mut state, range.start, comments);
            proof {
                lemma_in_order_extend(elems, l0, state.list@);
            }
            let ghost l1 = state.list@;
            let doc = self.build_named_argument(item, comments);
            self.group_element_end(&mut state, doc, range.end, comments);
            proof {
                lemma_in_order_push_both(elems, l1, doc);
                lemma_in_order_extend(elems.push(doc), l1.push(doc), state.list@);
                elems = elems.push(doc);
            }
            i = i + 1;
        }
        let bodies = self.group_finish(state, end, comments);
        proof {
            assert(group_holds_in_order(self.docs(), bodies, elems, self.indent_width()));
        }
        bodies
    }

    fn group_named_turbofish<'c>(
        &mut self,
        start: usize,
        end: usize,
        items: &Vec<Loc<NamedTurbofish>>,
        comments: &mut CommentMap<'c>,
    ) -> (bodies: GroupBodies)
        requires
            old(self).ready(old(comments)),
        ensures
            named_turbofish_ok(old(self).source_bytes(), items@, items@.len() as int) <==> final(self).reported() == old(self).reported(),
            final(self).grows(old(self)),
            final(comments).kept_from(old(comments)),
            final(self).holds_group(bodies),
            items@.len() > 0 ==> exists|elements: Seq<DocumentIdx>|
                elements.len() == items@.len() && #[trigger] group_holds_in_order(
                    final(self).docs(),
                    bodies,
                    elements,
                    final(self).indent_width(),
                ),
        decreases items, 0int,
    {
        let count: usize = items.len();
        if count == 0 {
            return self.empty_group(start, end, comments);
        }
        let first = items[0].byte_range();
        let mut state = self.group_start(comments, start, end, first.start);
        let ghost mut elems: Seq<DocumentIdx> = Seq::empty();
        let mut i: usize = 0;
        while i < count
            invariant
                i <= count <= items@.len(),
                self.grows(old(self)),
                comments.kept_from(old(comments)),
                self.ready(comments),
                self.group_ok(&state),
                elems.len() == i,
                in_order(elems, state.list@),
                self.indent_width() == old(self).indent_width(),
                (self.reported() == old(self).reported()) <==> named_turbofish_ok(old(self).source_bytes(), items@, i as int),
            decreases count - i,
        {
            let item = &items[i];
            let range = item.byte_range();
            let ghost l0 = state.list@;
            self.group_element_start(&mut state, range.start, comments);
            proof {
                lemma_in_order_extend(elems, l0, state.list@);
            }
            let ghost l1 = state.list@;
            let doc = self.build_named_turbofish(item, comments);
            self.group_element_end(&mut state, doc, range.end, comments);
            proof {
                lemma_in_order_push_both(elems, l1, doc);
                lemma_in_order_extend(elems.push(doc), l1.push(doc), state.list@);
                elems = elems.push(doc);
            }
            i = i + 1;
        }
        let bodies = self.group_finish(state, end, comments);
        proof {
            assert(group_holds_in_order(self.docs(), bodies, elems, self.indent_width()));
        }
        bodies
    }

    fn group_patterns<'c>(
        &mut self,
        start: usize,
        end: usize,
        items: &Vec<Loc<Pattern>>,
        comments: &mut CommentMap<'c>,
    ) -> (bodies: GroupBodies)
        requires
            old(self).ready(old(comments)),
        ensures
            patterns_ok(old(self).source_bytes(), items@, items@.len() as int) <==> final(self).reported() == old(self).reported(),
            final(self).grows(old(self)),
            final(comments).kept_from(old(comments)),
            final(self).holds_group(bodies),
            items@.len() > 0 ==> exists|elements: Seq<DocumentIdx>|
                elements.len() == items@.len() && #[trigger] group_holds_in_order(
                    final(self).docs(),
                    bodies,
                    elements,
                    final(self).indent_width(),
                ),
        decreases items, 0int,
    {
        let count: usize = items.len();
        if count == 0 {
            return self.empty_group(start, end, comments);
        }
        let first = items[0].byte_range();
        let mut state = self.group_start(comments, start, end, first.start);
        let ghost mut elems: Seq<DocumentIdx> = Seq::empty();
        let mut i: usize = 0;
        while i < count
            invariant
                i <= count <= items@.len(),
                self.grows(old(self)),
                comments.kept_from(old(comments)),
                self.ready(comments),
                self.group_ok(&state),
                elems.len() == i,
                in_order(elems, state.list@),
                self.indent_width() == old(self).indent_width(),
                (self.reported() == old(self).reported()) <==> patterns_ok(old(self).source_bytes(), items@, i as int),
            decreases count - i,
        {
            let item = &items[i];
            let range = item.byte_range();
            let ghost l0 = state.list@;
            self.group_element_start(&mut state, range.start, comments);
            proof {
                lemma_in_order_extend(elems, l0, state.list@);
            }
            let ghost l1 = state.list@;
            let doc = self.build_pattern(item, comments);
            self.group_element_end(&mut state, doc, range.end, comments);
            proof {
                lemma_in_order_push_both(elems, l1, doc);
                lemma_in_order_extend(elems.push(doc), l1.push(doc), state.list@);
                elems = elems.push(doc);
            }
            i = i + 1;
        }
        let bodies = self.group_finish(state, end, comments);
        proof {
            assert(group_holds_in_order(self.docs(), bodies, elems, self.indent_width()));
        }
        bodies
    }

    fn group_named_pattern_args<'c>(
        &mut self,
        start: usize,
        end: usize,
        items: &Vec<NamedPatternArgument>,
        comments: &mut CommentMap<'c>,
    ) -> (bodies: GroupBodies)
        requires
            old(self).ready(old(comments)),
        ensures
            named_pattern_arguments_ok(old(self).source_bytes(), items@, items@.len() as int) <==> final(self).reported() == old(self).reported(),
            final(self).grows(old(self)),
            final(comments).kept_from(old(comments)),
            final(self).holds_group(bodies),
            items@.len() > 0 ==> exists|elements: Seq<DocumentIdx>|
                elements.len() == items@.len() && #[trigger] group_holds_in_order(
                    final(self).docs(),
                    bodies,
                    elements,
                    final(self).indent_width(),
                ),
        decreases items, 0int,
    {
        let count: usize = items.len();
        if count == 0 {
            return self.empty_group(start, end, comments);
        }
        let first = items[0].byte_range();
        let mut state = self.group_start(comments, start, end, first.start);
        let ghost mut elems: Seq<DocumentIdx> = Seq::empty();
        let mut i: usize = 0;
        while i < count
            invariant
                i <= count <= items@.len(),
                self.grows(old(self)),
                comments.kept_from(old(comments)),
                self.ready(comments),
                self.group_ok(&state),
                elems.len() == i,
                in_order(elems, state.list@),
                self.indent_width() == old(self).indent_width(),
                (self.reported() == old(self).reported()) <==> named_pattern_arguments_ok(old(self).source_bytes(), items@, i as int),
            decreases count - i,
        {
            let item = &items[i];
            let range = item.byte_range();
            let ghost l0 = state.list@;
            self.group_element_start(&mut state, range.start, comments);
            proof {
                lemma_in_order_extend(elems, l0, state.list@);
            }
            let ghost l1 = state.list@;
            let doc = self.build_named_pattern_argument(item, comments);
            self.group_element_end(&mut state, doc, range.end, comments);
            proof {
                lemma_in_order_push_both(elems, l1, doc);
                lemma_in_order_extend(elems.push(doc), l1.push(doc), state.list@);
                elems = elems.push(doc);
            }
            i = i + 1;
        }
        let bodies = self.group_finish(state, end, comments);
        proof {
            assert(group_holds_in_order(self.docs(), bodies, elems, self.indent_width()));
        }
        bodies
    }

    fn group_parameters<'c>(
        &mut self,
        start: usize,
        end: usize,
        items: &Vec<Parameter>,
        comments: &mut CommentMap<'c>,
    ) -> (bodies: GroupBodies)
        requires
            old(self).ready(old(comments)),
        ensures
            parameters_ok(old(self).source_bytes(), items@, items@.len() as int) <==> final(self).reported() == old(self).reported(),
            final(self).grows(old(self)),
            final(comments).kept_from(old(comments)),
            final(self).holds_group(bodies),
            items@.len() > 0 ==> exists|elements: Seq<DocumentIdx>|
                elements.len() == items@.len() && #[trigger] group_holds_in_order(
                    final(self).docs(),
                    bodies,
                    elements,
                    final(self).indent_width(),
                ),
        decreases items, 0int,
    {
        let count: usize = items.len();
        if count == 0 {
            return self.empty_group(start, end, comments);
        }
        let first = items[0].byte_range();
        let mut state = self.group_start(comments, start, end, first.start);
        let ghost mut elems: Seq<DocumentIdx> = Seq::empty();
        let mut i: usize = 0;
        while i < count
            invariant
                i <= count <= items@.len(),
                self.grows(old(self)),
                comments.kept_from(old(comments)),
                self.ready(comments),
                self.group_ok(&state),
                elems.len() == i,
                in_order(elems, state.list@),
                self.indent_width() == old(self).indent_width(),
                (self.reported() == old(self).reported()) <==> parameters_ok(old(self).source_bytes(), items@, i as int),
            decreases count - i,
        {
            let item = &items[i];
            let range = item.byte_range();
            let ghost l0 = state.list@;
            self.group_element_start(&mut state, range.start, comments);
            proof {
                lemma_in_order_extend(elems, l0, state.list@);
            }
            let ghost l1 = state.list@;
            let doc = self.build_parameter(item, comments);
            self.group_element_end(&mut state, doc, range.end, comments);
            proof {
                lemma_in_order_push_both(elems, l1, doc);
                lemma_in_order_extend(elems.push(doc), l1.push(doc), state.list@);
                elems = elems.push(doc);
            }
            i = i + 1;
        }
        let bodies = self.group_finish(state, end, comments);
        proof {
            assert(group_holds_in_order(self.docs(), bodies, elems, self.indent_width()));
        }
        bodies
    }

    fn group_enum_variants<'c>(
        &mut self,
        start: usize,
        end: usize,
        items: &Vec<EnumVariant>,
        comments: &mut CommentMap<'c>,
    ) -> (bodies: GroupBodies)
        requires
            old(self).ready(old(comments)),
        ensures
            enum_variants_ok(old(self).source_bytes(), items@, items@.len() as int) <==> final(self).reported() == old(self).reported(),
            final(self).grows(old(self)),
            final(comments).kept_from(old(comments)),
            final(self).holds_group(bodies),
            items@.len() > 0 ==> exists|elements: Seq<DocumentIdx>|
                elements.len() == items@.len() && #[trigger] group_holds_in_order(
                    final(self).docs(),
                    bodies,
                    elements,
                    final(self).indent_width(),
                ),
        decreases items, 0int,
    {
        let count: usize = items.len();
        if count == 0 {
            return self.empty_group(start, end, comments);
        }
        let first = items[0].byte_range();
        let mut state = self.group_start(comments, start, end, first.start);
        let ghost mut elems: Seq<DocumentIdx> = Seq::empty();
        let mut i: usize = 0;
        while i < count
            invariant
                i <= count <= items@.len(),
                self.grows(old(self)),
                comments.kept_from(old(comments)),
                self.ready(comments),
                self.group_ok(&state),
                elems.len() == i,
                in_order(elems, state.list@),
                self.indent_width() == old(self).indent_width(),
                (self.reported() == old(self).reported()) <==> enum_variants_ok(old(self).source_bytes(), items@, i as int),
            decreases count - i,
        {
            let item = &items[i];
            let range = item.byte_range();
            let ghost l0 = state.list@;
            self.group_element_start(&mut state, range.start, comments);
            proof {
                lemma_in_order_extend(elems, l0, state.list@);
            }
            let ghost l1 = state.list@;
            let doc = self.build_enum_variant(item, comments);
            self.group_element_end(&mut state, doc, range.end, comments);
            proof {
                lemma_in_order_push_both(elems, l1, doc);
                lemma_in_order_extend(elems.push(doc), l1.push(doc), state.list@);
                elems = elems.push(doc);
            }
            i = i + 1;
        }
        let bodies = self.group_finish(state, end, comments);
        proof {
            assert(group_holds_in_order(self.docs(), bodies, elems, self.indent_width()));
        }
        bodies
    }

    pub fn build_expression<'c>(&mut self, expression: &Loc<Expression>, comments: &mut CommentMap<'c>) -> (idx:
        DocumentIdx)
        requires
            old(self).ready(old(comments)),
        ensures
            expression_ok(old(self).source_bytes(), *expression) <==> final(self).reported() == old(self).reported(),
            built(final(self), old(self), final(comments), old(comments), idx),
            operand_doc(old(self).source_bytes(), final(self).docs(), idx.0 as int, *expression),
        decreases expression, 2int,
    {
        // Comments directly above or inline before an expression that no
        // coarser construct claimed (e.g. above a binding's value) belong
        // to it.
        let start = expression.span.start;
        let leading = self.claim_leading(comments, start, true, false);
        let doc = self.build_expression_inner(expression, comments);
        let ghost d1 = self.docs();
        let idx = self.with_adjacent_leading(&leading, start, doc, comments);
        proof {
            lemma_expression_doc_grows(old(self).source_bytes(), d1, self.docs(), doc.0 as int, *expression);
            if leading@.len() > 0 {
                if has_own_line(leading@) {
                    let b = self.docs()[idx.0 as int]->Nest_0;
                    assert(nested_last_doc(old(self).source_bytes(), self.docs(), b.0 as int, *expression));
                }
            }
        }
        idx
    }

    /// `inst ` or `inst(<latency>) ` before a call of an entity or a
    /// pipeline.
    fn push_call_kind<'c>(&mut self, kind: &CallKind, list: &mut Vec<DocumentIdx>, comments: &mut CommentMap<'c>)
        requires
            old(self).ready(old(comments)),
            all_below(old(list)@, old(self).docs().len() as int),
        ensures
            call_kind_ok(old(self).source_bytes(), *kind) <==> final(self).reported() == old(self).reported(),
            final(self).grows(old(self)),
            final(comments).kept_from(old(comments)),
            all_below(final(list)@, final(self).docs().len() as int),
            final(list)@.len() == old(list)@.len() + call_kind_len(*kind),
            forall|j: int| 0 <= j < old(list)@.len() ==> #[trigger] final(list)@[j] == old(list)@[j],
            call_kind_shape(final(self).docs(), final(list)@, old(list)@.len() as int, *kind),
        decreases kind, 0int,
    {
        let ghost l0 = list@;
        match kind {
            CallKind::Function => {},
            CallKind::Entity => {
                let inst = self.text("inst ");
                list.push(inst);
                proof {
                    assert(list@[l0.len() as int] == inst);
                }
            },
            CallKind::Pipeline(latency) => {
                let open = self.text("inst(");
                list.push(open);
                let ghost d_open = self.docs();
                let latency_doc = self.build_type_expression(latency, comments);
                list.push(latency_doc);
                let close = self.text(") ");
                list.push(close);
                proof {
                    assert(list@[l0.len() as int] == open);
                    assert(list@[l0.len() as int + 2] == close);
                    assert(self.docs()[open.0 as int] == d_open[open.0 as int]);
                }
            },
        }
    }

    /// `fn`, `entity` or `pipeline(<depth>)`, followed by a space under
    /// `spaced`.
    fn unit_kind_doc<'c>(&mut self, unit_kind: &Loc<UnitKind>, spaced: bool, comments: &mut CommentMap<'c>) -> (idx:
        DocumentIdx)
        requires
            old(self).ready(old(comments)),
        ensures
            unit_kind_ok(old(self).source_bytes(), *unit_kind) <==> final(self).reported() == old(self).reported(),
            built(final(self), old(self), final(comments), old(comments), idx),
            unit_kind_shape(final(self).docs(), idx.0 as int, unit_kind.inner, spaced),
        decreases unit_kind, 0int,
    {
        proof {
            reveal_strlit("fn ");
            reveal_strlit("fn");
            reveal_strlit("entity ");
            reveal_strlit("entity");
            reveal_strlit(" ");
            reveal_strlit(") ");
            reveal_strlit(")");
            assert("fn "@ =~= "fn"@ + " "@);
            assert("entity "@ =~= "entity"@ + " "@);
            assert(") "@ =~= ")"@ + " "@);
            assert("fn"@ =~= "fn"@ + Seq::<char>::empty());
            assert("entity"@ =~= "entity"@ + Seq::<char>::empty());
            assert(")"@ =~= ")"@ + Seq::<char>::empty());
        }
        match &unit_kind.inner {
            UnitKind::Function => if spaced {
                self.text("fn ")
            } else {
                self.text("fn")
            },
            UnitKind::Entity => if spaced {
                self.text("entity ")
            } else {
                self.text("entity")
            },
            UnitKind::Pipeline(depth) => {
                let open = self.text("pipeline(");
                let ghost d_open = self.docs();
                let depth_doc = self.build_type_expression(depth, comments);
                let close = if spaced {
                    self.text(") ")
                } else {
                    self.text(")")
                };
                let ghost d_close = self.docs();
                let idx = self.list(vec![open, depth_doc, close]);
                proof {
                    assert(self.docs()[open.0 as int] == d_open[open.0 as int]);
                    assert(self.docs()[close.0 as int] == d_close[close.0 as int]);
                }
                idx
            },
        }
    }

    /// Operators, parentheses, array shorthands and `if`: their parts in source order.
    fn build_operator_expression<'c>(&mut self, expression: &Loc<Expression>, comments: &mut CommentMap<'c>) -> (idx:
        DocumentIdx)
        requires
            expression.inner is UnaryOperator || expression.inner is BinaryOperator || expression.inner is Parenthesized
                || expression.inner is ArrayShorthandLiteral || expression.inner is If,
            old(self).ready(old(comments)),
        ensures
            expression_ok(old(self).source_bytes(), *expression) <==> final(self).reported() == old(self).reported(),
            built(final(self), old(self), final(comments), old(comments), idx),
            expression_doc(old(self).source_bytes(), final(self).docs(), idx.0 as int, *expression),
        decreases expression, 0int,
    {
        let ghost src = old(self).source_bytes();
        match &expression.inner {
            Expression::UnaryOperator(operator, inner) => {
                let operator_doc = self.text(unary_operator_str(operator));
                let inner_doc = self.build_expression(inner, comments);
                let ghost d1 = self.docs();
                let idx = self.list(vec![operator_doc, inner_doc]);
                proof {
                    lemma_operand_doc_grows(src, d1, self.docs(), inner_doc.0 as int, **inner);
                }
                idx
            },
            Expression::BinaryOperator(left, operator, right) => {
                let left_doc = self.build_expression(left, comments);
                let ghost d1 = self.docs();
                let operator_doc = self.text_owned(concat3(" ", binary_operator_str(operator), " "));
                proof {
                    reveal_strlit(" ");
                    assert(" "@ =~= seq![' ']);
                }
                let right_doc = self.build_expression(right, comments);
                let ghost d2 = self.docs();
                let idx = self.list(vec![left_doc, operator_doc, right_doc]);
                proof {
                    lemma_operand_doc_grows(src, d1, self.docs(), left_doc.0 as int, **left);
                    lemma_operand_doc_grows(src, d2, self.docs(), right_doc.0 as int, **right);
                }
                idx
            },
            Expression::Parenthesized(inner) => {
                let open = self.text("(");
                let inner_doc = self.build_expression(inner, comments);
                let ghost d1 = self.docs();
                let close = self.text(")");
                let idx = self.list(vec![open, inner_doc, close]);
                proof {
                    reveal_strlit("(");
                    reveal_strlit(")");
                    assert("("@ =~= seq!['(']);
                    assert(")"@ =~= seq![')']);
                    lemma_operand_doc_grows(src, d1, self.docs(), inner_doc.0 as int, **inner);
                }
                idx
            },
            Expression::ArrayShorthandLiteral(element, amount) => {
                let open = self.text("[");
                let element_doc = self.build_expression(element, comments);
                let ghost d1 = self.docs();
                let semi = self.text(";");
                let space = self.text(" ");
                let amount_doc = self.build_expression(amount, comments);
                let ghost d2 = self.docs();
                let close = self.text("]");
                let idx = self.list(vec![open, element_doc, semi, space, amount_doc, close]);
                proof {
                    lemma_operand_doc_grows(src, d1, self.docs(), element_doc.0 as int, **element);
                    lemma_operand_doc_grows(src, d2, self.docs(), amount_doc.0 as int, **amount);
                }
                idx
            },
            Expression::If { cond, on_true, on_false } => {
                let if_doc = self.text("if ");
                let cond_doc = self.build_expression(cond, comments);
                let ghost d1 = self.docs();
                let space = self.text(" ");
                let true_doc = self.build_expression(on_true, comments);
                let ghost d2 = self.docs();
                let else_doc = self.text(" else ");
                let false_doc = self.build_expression(on_false, comments);
                let ghost d3 = self.docs();
                let idx = self.list(vec![if_doc, cond_doc, space, true_doc, else_doc, false_doc]);
                proof {
                    lemma_operand_doc_grows(src, d1, self.docs(), cond_doc.0 as int, **cond);
                    lemma_operand_doc_grows(src, d2, self.docs(), true_doc.0 as int, **on_true);
                    lemma_operand_doc_grows(src, d3, self.docs(), false_doc.0 as int, **on_false);
                }
                idx
            },
            _ => self.empty(),
        }
    }

    /// Range indexing, tuple indexing, field access, casts and label access: the target first.
    fn build_access_expression<'c>(&mut self, expression: &Loc<Expression>, comments: &mut CommentMap<'c>) -> (idx:
        DocumentIdx)
        requires
            expression.inner is RangeIndex || expression.inner is TupleIndex || expression.inner is FieldAccess
                || expression.inner is TypeCast || expression.inner is LabelAccess,
            old(self).ready(old(comments)),
        ensures
            expression_ok(old(self).source_bytes(), *expression) <==> final(self).reported() == old(self).reported(),
            built(final(self), old(self), final(comments), old(comments), idx),
            expression_doc(old(self).source_bytes(), final(self).docs(), idx.0 as int, *expression),
        decreases expression, 0int,
    {
        let ghost src = old(self).source_bytes();
        match &expression.inner {
            Expression::RangeIndex { target, start, end } => {
                let target_doc = self.build_expression(target, comments);
                let ghost d0 = self.docs();
                let open = self.text("[");
                let mut list: Vec<DocumentIdx> = vec![target_doc, open];
                let ghost mut start_doc_idx: DocumentIdx = target_doc;
                let ghost mut d1 = self.docs();
                if let Some(start) = start {
                    let start_doc = self.build_expression(start, comments);
                    proof {
                        start_doc_idx = start_doc;
                        d1 = self.docs();
                    }
                    list.push(start_doc);
                }
                let dots = self.text("..");
                list.push(dots);
                let ghost mut end_doc_idx: DocumentIdx = target_doc;
                let ghost mut d2 = self.docs();
                if let Some(end) = end {
                    let end_doc = self.build_expression(end, comments);
                    proof {
                        end_doc_idx = end_doc;
                        d2 = self.docs();
                    }
                    list.push(end_doc);
                }
                let close = self.text("]");
                list.push(close);
                let ghost l = list@;
                let idx = self.list(list);
                proof {
                    lemma_operand_doc_grows(src, d0, self.docs(), target_doc.0 as int, **target);
                    if let Some(x) = start {
                        lemma_operand_doc_grows(src, d1, self.docs(), start_doc_idx.0 as int, **x);
                        assert(l[2] == start_doc_idx);
                    }
                    if let Some(y) = end {
                        lemma_operand_doc_grows(src, d2, self.docs(), end_doc_idx.0 as int, **y);
                    }
                }
                idx
            },
            // The deprecated `x#0` syntax normalizes to `x.0`.
            Expression::TupleIndex { target, index } => {
                let target_doc = self.build_expression(target, comments);
                let ghost d0 = self.docs();
                let dot = self.text(".");
                let index_doc = self.source_text(index.start, index.end, comments);
                let idx = self.list(vec![target_doc, dot, index_doc]);
                proof {
                    lemma_operand_doc_grows(src, d0, self.docs(), target_doc.0 as int, **target);
                }
                idx
            },
            Expression::FieldAccess(parent, field) => {
                let parent_doc = self.build_expression(parent, comments);
                let ghost d0 = self.docs();
                let name = self.identifier_text(field);
                let field_doc = self.text2(".", name.as_str());
                let idx = self.list(vec![parent_doc, field_doc]);
                proof {
                    lemma_operand_doc_grows(src, d0, self.docs(), parent_doc.0 as int, **parent);
                }
                idx
            },
            Expression::TypeCast(target, ty) => {
                let target_doc = self.build_expression(target, comments);
                let ghost d0 = self.docs();
                let as_doc = self.text(" as ");
                let ty_doc = self.build_type_expression(ty, comments);
                let idx = self.list(vec![target_doc, as_doc, ty_doc]);
                proof {
                    lemma_operand_doc_grows(src, d0, self.docs(), target_doc.0 as int, **target);
                }
                idx
            },
            Expression::LabelAccess { label, field } => {
                let at = self.text("@");
                let label_doc = self.build_path(label);
                let name = self.identifier_text(field);
                let field_doc = self.text2(".", name.as_str());
                self.list(vec![at, label_doc, field_doc])
            },
            _ => self.empty(),
        }
    }

    #[verifier::rlimit(100)]
    fn build_expression_inner<'c>(&mut self, expression: &Loc<Expression>, comments: &mut CommentMap<'c>) -> (idx:
        DocumentIdx)
        requires
            old(self).ready(old(comments)),
        ensures
            expression_ok(old(self).source_bytes(), *expression) <==> final(self).reported() == old(self).reported(),
            built(final(self), old(self), final(comments), old(comments), idx),
            expression.inner matches Expression::Incomplete(diagnostic) ==> final(self).docs()[idx.0 as int]
                == DocumentView::Text(Seq::empty()) && final(self).diagnostic_list() == old(
                self,
            ).diagnostic_list().push(BuildDiagnostic::Embedded(diagnostic)),
            expression_doc(old(self).source_bytes(), final(self).docs(), idx.0 as int, *expression),
        decreases expression, 1int,
    {
        match &expression.inner {
            Expression::Identifier(path) => self.build_path(path),
            // The parser folds a unary `-` into the literal's value and
            // keeps only the bare token in the inner span (`--5` is 5, `-0`
            // is 0), so the sign comes from the value and comments between
            // the sign(s) and the token lead the token like an operand's
            // would.
            Expression::IntLiteral { token, negative } => {
                let leading = self.claim_within(comments, expression.span.start, token.start);
                let token_doc = self.source_text(token.start, token.end, comments);
                let token_doc = self.with_adjacent_leading(&leading, token.start, token_doc, comments);
                if *negative {
                    let minus = self.text("-");
                    self.list(vec![minus, token_doc])
                } else {
                    token_doc
                }
            },
            Expression::BoolLiteral(value) => if *value {
                self.text("true")
            } else {
                self.text("false")
            },
            Expression::TriLiteral(bit) => match bit {
                BitLiteral::Low => self.text("LOW"),
                BitLiteral::High => self.text("HIGH"),
                BitLiteral::HighImp => self.text("HIGHIMP"),
            },
            // The parser desugars `b"ab"` into an array of `uint<8>`
            // literals, one per character inside the quotes; a real array
            // span starts with `[`.
            Expression::ArrayLiteral(elements) => {
                let start = expression.span.start;
                let end = expression.span.end;
                let slice = self.source_slice(start, end);
                let bytes = slice.as_bytes();
                if bytes.len() >= 2 && bytes[0] == 98 && bytes[1] == 34 {
                    self.claim_within(comments, start, end);
                    self.verbatim(owned(slice))
                } else {
                    let bodies = self.group_array_elements(start, end, elements, comments);
                    self.wrap_group("[", bodies, "]")
                }
            },
            Expression::ArrayShorthandLiteral(..) => self.build_operator_expression(expression, comments),
            // Not formattable yet; the operands are still walked so that
            // everything unsupported in them is reported in the same run.
            Expression::Index(target, index) => {
                let _ = self.build_expression(target, comments);
                let _ = self.build_expression(index, comments);
                self.unsupported(expression.span, "index expressions")
            },
            Expression::RangeIndex { .. } => self.build_access_expression(expression, comments),
            Expression::TupleLiteral(items) => {
                let bodies = self.group_exprs(expression.span.start, expression.span.end, items, comments);
                self.wrap_group("(", bodies, ")")
            },
            Expression::TupleIndex { .. } | Expression::FieldAccess(..) | Expression::TypeCast(..)
            | Expression::LabelAccess { .. } => self.build_access_expression(expression, comments),
            // Verbatim like a macro definition; the span runs from the
            // callee path through the closing delimiter, whose kind only
            // the source records.
            Expression::MacroCall => self.raw_source_span(expression.span, comments),
            // The parser recovered around a malformed expression and
            // embedded the real diagnostic in the node instead of
            // reporting it, so the failed-parse gate never saw it.
            Expression::Incomplete(diagnostic) => {
                self.diagnostics.push(BuildDiagnostic::Embedded(*diagnostic));
                proof {
                    assert(self.diagnostics@.drop_last() =~= old(self).diagnostics@);
                    reveal_strlit("");
                    assert(""@ =~= Seq::<char>::empty());
                }
                let ghost pushed = self.diagnostics@;
                let idx = self.text("");
                proof {
                    assert(self.diagnostics@ == pushed);
                }
                idx
            },
            Expression::Call { .. } | Expression::MethodCall { .. } => self.build_call(
                expression,
                comments,
            ),
            Expression::If { .. } => self.build_operator_expression(expression, comments),
            Expression::Match { .. } => self.build_match(expression, comments),
            Expression::UnaryOperator(..) | Expression::BinaryOperator(..) => self.build_operator_expression(
                expression,
                comments,
            ),
            Expression::Block(block) => self.build_block(
                block,
                expression.span.start,
                expression.span.end,
                comments,
            ),
            Expression::PipelineReference { .. } => self.build_stage_reference(
                expression,
                comments,
            ),
            Expression::TypeLevelIf { .. } => {
                let gen_doc = self.text("gen ");
                let chain = self.build_gen_if(expression, comments);
                self.list(vec![gen_doc, chain])
            },
            Expression::StageValid => self.text("stage.valid"),
            Expression::StageReady => self.text("stage.ready"),
            Expression::StrLiteral(value) => self.string_literal(value),
            Expression::Parenthesized(..) => self.build_operator_expression(expression, comments),
            Expression::Lambda { .. } => self.build_lambda(expression, comments),
            Expression::Unsafe(block) => {
                let unsafe_doc = self.text("unsafe ");
                let block_doc = self.build_block(&block.inner, block.span.start, block.span.end, comments);
                self.list(vec![unsafe_doc, block_doc])
            },
            Expression::StaticUnreachable => self.unsupported(
                expression.span,
                "`static_unreachable!`",
            ),
        }
    }

    /// Each arm of a match as a document of its own: the pattern (and
    /// guard) and the value side by side when they fit.
    #[verifier::rlimit(60)]
    fn build_match_arms<'c>(&mut self, branches: &Loc<Vec<MatchArm>>, comments: &mut CommentMap<'c>) -> (arms:
        Vec<Prebuilt>)
        requires
            old(self).ready(old(comments)),
        ensures
            match_arms_ok(old(self).source_bytes(), branches.inner@, branches.inner@.len() as int) <==> final(self).reported() == old(self).reported(),
            final(self).grows(old(self)),
            final(comments).kept_from(old(comments)),
            forall|k: int| 0 <= k < arms@.len() ==> final(self).holds(#[trigger] arms@[k].doc),
        decreases branches, 0int,
    {
        let mut arms: Vec<Prebuilt> = Vec::new();
        let mut i: usize = 0;
        while i < branches.inner.len()
            invariant
                (self.reported() == old(self).reported()) <==> match_arms_ok(old(self).source_bytes(), branches.inner@, i as int),
                i <= branches.inner@.len(),
                self.grows(old(self)),
                comments.kept_from(old(comments)),
                self.ready(comments),
                forall|k: int|
                    0 <= k < arms@.len() ==> (#[trigger] arms@[k]).doc.0 < self.docs().len(),
            decreases branches.inner@.len() - i,
        {
            let arm = &branches.inner[i];
            let pattern_doc = self.build_pattern(&arm.0, comments);
            let mut pattern_list: Vec<DocumentIdx> = vec![pattern_doc];
            if let Some(guard) = &arm.1 {
                let if_doc = self.text(" if ");
                pattern_list.push(if_doc);
                let guard_doc = self.build_expression(guard, comments);
                pattern_list.push(guard_doc);
            }
            let pattern = self.list(pattern_list);
            let arrow = self.text(" => ");
            let value = self.build_expression(&arm.2, comments);
            let case = self.list(vec![arrow, value]);
            let flat_pattern = self.flatten(pattern);
            let flat_case = self.flatten(case);
            let all_flat = self.list(vec![flat_pattern, flat_case]);
            let flat_head = self.list(vec![flat_pattern, case]);
            let broken = self.list(vec![pattern, case]);
            let fallback = self.try_catch(flat_head, broken);
            let arm_doc = self.try_catch(all_flat, fallback);
            arms.push(Prebuilt { doc: arm_doc, start: arm.0.span.start, end: arm.2.span.end });
            i = i + 1;
        }
        arms
    }

    /// A `match` (or `if let`) expression.
    fn build_match<'c>(&mut self, expression: &Loc<Expression>, comments: &mut CommentMap<'c>) -> (idx:
        DocumentIdx)
        requires
            expression.inner is Match,
            old(self).ready(old(comments)),
        ensures
            expression_ok(old(self).source_bytes(), *expression) <==> final(self).reported() == old(self).reported(),
            built(final(self), old(self), final(comments), old(comments), idx),
        decreases expression, 0int,
    {
        match &expression.inner {
            Expression::Match { expression: against, branches, if_let } => {
                if *if_let {
                    // `if let` parses to a two-branch match whose second
                    // pattern is a synthetic `_`; reconstruct the original.
                    if branches.inner.len() == 2 && branches.inner[0].1.is_none()
                        && branches.inner[1].1.is_none() {
                        let if_let_doc = self.text("if let ");
                        let pattern_doc = self.build_pattern(&branches.inner[0].0, comments);
                        let equals = self.text(" = ");
                        let against_doc = self.build_expression(against, comments);
                        let space = self.text(" ");
                        let true_doc = self.build_expression(&branches.inner[0].2, comments);
                        let else_doc = self.text(" else ");
                        let false_doc = self.build_expression(&branches.inner[1].2, comments);
                        return self.list(
                            vec![
                                if_let_doc,
                                pattern_doc,
                                equals,
                                against_doc,
                                space,
                                true_doc,
                                else_doc,
                                false_doc,
                            ],
                        );
                    }
                    // Unreachable from the parser.
                    return self.unsupported(expression.span, "this `if let` expression");
                }
                let match_doc = self.text("match ");
                let against_doc = self.build_expression(against, comments);
                let mut list: Vec<DocumentIdx> = vec![match_doc, against_doc];
                let arms = self.build_match_arms(branches, comments);
                let bodies = self.group_raw_prebuilt(branches.span.start, branches.span.end, &arms, comments);
                let open = self.text(" {");
                list.push(open);
                if !self.is_empty(bodies.broken) {
                    let arms_doc = if bodies.force {
                        bodies.broken
                    } else {
                        let space = self.text(" ");
                        let flat = self.list(vec![space, bodies.flat, space]);
                        self.try_catch(flat, bodies.broken)
                    };
                    list.push(arms_doc);
                }
                let close = self.text("}");
                list.push(close);
                self.list(list)
            },
            _ => self.unsupported(expression.span, "this expression"),
        }
    }

    /// A function, entity or pipeline call, or a method call.
    fn build_call<'c>(&mut self, expression: &Loc<Expression>, comments: &mut CommentMap<'c>) -> (idx:
        DocumentIdx)
        requires
            expression.inner is Call || expression.inner is MethodCall,
            old(self).ready(old(comments)),
        ensures
            expression_ok(old(self).source_bytes(), *expression) <==> final(self).reported() == old(self).reported(),
            built(final(self), old(self), final(comments), old(comments), idx),
            expression_doc(old(self).source_bytes(), final(self).docs(), idx.0 as int, *expression),
        decreases expression, 0int,
    {
        let ghost src = self.source_bytes();
        match &expression.inner {
            Expression::Call { kind, callee, args, turbofish } => {
                let mut list: Vec<DocumentIdx> = Vec::new();
                self.push_call_kind(kind, &mut list, comments);
                let ghost d_kind = self.docs();
                let ghost l_kind = list@;
                let callee_doc = self.build_path(callee);
                list.push(callee_doc);
                let ghost d_callee = self.docs();
                let ghost l_callee = list@;
                if let Some(turbofish) = turbofish {
                    let turbofish_doc = self.build_turbofish(turbofish, comments);
                    list.push(turbofish_doc);
                }
                let args_doc = self.build_argument_list(args, comments);
                list.push(args_doc);
                let idx = self.list(list);
                proof {
                    let l = list@;
                    let t: int = if turbofish is Some { 1 } else { 0 };
                    assert(l.len() == l_callee.len() + 1 + t);
                    assert(l[l_callee.len() - 1] == callee_doc);
                    assert(self.docs()[callee_doc.0 as int] == d_callee[callee_doc.0 as int]);
                    lemma_call_kind_shape_keeps(d_kind, self.docs(), l_kind, l, 0, *kind);
                }
                idx
            },
            Expression::MethodCall { target, name, args, kind, turbofish } => {
                let target_doc = self.build_expression(target, comments);
                let ghost d_target = self.docs();
                let dot = self.text(".");
                let ghost d_dot = self.docs();
                let mut list: Vec<DocumentIdx> = vec![target_doc, dot];
                self.push_call_kind(kind, &mut list, comments);
                let ghost d_kind = self.docs();
                let ghost l_kind = list@;
                let name_doc = self.identifier(name);
                list.push(name_doc);
                let ghost d_name = self.docs();
                let ghost l_name = list@;
                if let Some(turbofish) = turbofish {
                    let turbofish_doc = self.build_turbofish(turbofish, comments);
                    list.push(turbofish_doc);
                }
                let args_doc = self.build_argument_list(args, comments);
                list.push(args_doc);
                let idx = self.list(list);
                proof {
                    let l = list@;
                    let t: int = if turbofish is Some { 1 } else { 0 };
                    assert(l.len() == l_name.len() + 1 + t);
                    assert(l[l_name.len() - 1] == name_doc);
                    assert(l[0] == target_doc && l[1] == dot);
                    assert(self.docs()[name_doc.0 as int] == d_name[name_doc.0 as int]);
                    assert(self.docs()[dot.0 as int] == d_dot[dot.0 as int]);
                    lemma_operand_doc_grows(src, d_target, self.docs(), target_doc.0 as int, **target);
                    lemma_call_kind_shape_keeps(d_kind, self.docs(), l_kind, l, 2, *kind);
                }
                idx
            },
            _ => self.unsupported(expression.span, "this expression"),
        }
    }

    /// A `stage(..).name` reference.
    fn build_stage_reference<'c>(&mut self, expression: &Loc<Expression>, comments: &mut CommentMap<'c>) -> (idx:
        DocumentIdx)
        requires
            expression.inner is PipelineReference,
            old(self).ready(old(comments)),
        ensures
            expression_ok(old(self).source_bytes(), *expression) <==> final(self).reported() == old(self).reported(),
            built(final(self), old(self), final(comments), old(comments), idx),
        decreases expression, 0int,
    {
        match &expression.inner {
            Expression::PipelineReference { stage, name } => {
                let stage_doc = match stage {
                    PipelineStageReference::Absolute(identifier) => self.identifier(identifier),
                    // The parser eats the mandatory sign; `-` survives as a
                    // synthetic outer negation.
                    PipelineStageReference::Relative(offset) => match &offset.inner {
                        TypeExpression::ConstGeneric(offset_expression) => {
                            match &offset_expression.inner {
                                Expression::UnaryOperator(UnaryOperator::Sub, negated) => {
                                    let minus = self.text("-");
                                    let negated_doc = self.build_expression(negated, comments);
                                    self.list(vec![minus, negated_doc])
                                },
                                _ => {
                                    let plus = self.text("+");
                                    let offset_doc = self.build_expression(
                                        offset_expression,
                                        comments,
                                    );
                                    self.list(vec![plus, offset_doc])
                                },
                            }
                        },
                        _ => self.unsupported(offset.span, "this pipeline stage reference"),
                    },
                };
                let open = self.text("stage(");
                let name_text = self.identifier_text(name);
                let close = self.text2(").", name_text.as_str());
                self.list(vec![open, stage_doc, close])
            },
            _ => self.unsupported(expression.span, "this expression"),
        }
    }

    /// A lambda.
    fn build_lambda<'c>(&mut self, expression: &Loc<Expression>, comments: &mut CommentMap<'c>) -> (idx:
        DocumentIdx)
        requires
            expression.inner is Lambda,
            old(self).ready(old(comments)),
        ensures
            expression_ok(old(self).source_bytes(), *expression) <==> final(self).reported() == old(self).reported(),
            built(final(self), old(self), final(comments), old(comments), idx),
        decreases expression, 0int,
    {
        match &expression.inner {
            Expression::Lambda { unit_kind, args, body } => {
                let kind_doc = self.unit_kind_doc(unit_kind, true, comments);
                let mut list: Vec<DocumentIdx> = vec![kind_doc];
                if args.inner.len() == 0 {
                    let bars = self.text("||");
                    list.push(bars);
                } else {
                    let bodies = self.group_patterns(args.span.start, args.span.end, &args.inner, comments);
                    let args_doc = self.wrap_group("|", bodies, "|");
                    list.push(args_doc);
                }
                let space = self.text(" ");
                list.push(space);
                // A bare-expression body parses as a statement-less block;
                // print it back bare.
                let body_doc = if body.inner.statements.len() == 0 && body.inner.result.is_some() {
                    match &body.inner.result {
                        Some(result) => self.build_expression(result, comments),
                        None => self.empty(),
                    }
                } else {
                    self.build_block(&body.inner, body.span.start, body.span.end, comments)
                };
                list.push(body_doc);
                self.list(list)
            },
            _ => self.unsupported(expression.span, "this expression"),
        }
    }

    /// A `gen if` chain without the leading `gen` keyword, which is only
    /// valid at the head of the chain (`else if`, not `else gen if`).
    fn build_gen_if<'c>(&mut self, expression: &Loc<Expression>, comments: &mut CommentMap<'c>) -> (idx:
        DocumentIdx)
        requires
            old(self).ready(old(comments)),
        ensures
            gen_if_ok(old(self).source_bytes(), *expression) <==> final(self).reported() == old(self).reported(),
            built(final(self), old(self), final(comments), old(comments), idx),
        decreases expression, 0int,
    {
        match &expression.inner {
            Expression::TypeLevelIf { cond, on_true, on_false } => {
                let if_doc = self.text("if ");
                let cond_doc = self.build_expression(cond, comments);
                let space = self.text(" ");
                let true_doc = self.build_expression(on_true, comments);
                let mut list: Vec<DocumentIdx> = vec![if_doc, cond_doc, space, true_doc];
                // A missing `else` is stored as a synthetic empty block;
                // `else {}` is dropped either way.
                let empty_else = match &on_false.inner {
                    Expression::Block(block) => block.statements.len() == 0
                        && block.result.is_none(),
                    _ => false,
                };
                if !empty_else {
                    let else_doc = self.text(" else ");
                    list.push(else_doc);
                    let false_doc = match &on_false.inner {
                        Expression::TypeLevelIf { .. } => self.build_gen_if(on_false, comments),
                        _ => self.build_expression(on_false, comments),
                    };
                    list.push(false_doc);
                }
                self.list(list)
            },
            _ => self.unsupported(expression.span, "this `gen if` expression"),
        }
    }

    /// The braces and contents of a block spanning `start..end`, with
    /// blank-line gaps and comments preserved.
    #[verifier::rlimit(100)]
    #[verifier::spinoff_prover]
    pub fn build_block<'c>(&mut self, block: &Block, start: usize, end: usize, comments: &mut CommentMap<'c>) -> (idx:
        DocumentIdx)
        requires
            old(self).ready(old(comments)),
        ensures
            block_ok(old(self).source_bytes(), *block) <==> final(self).reported() == old(self).reported(),
            built(final(self), old(self), final(comments), old(comments), idx),
            final(self).docs()[idx.0 as int] matches DocumentView::List(l) && l.len() >= 2 && text_at(
                final(self).docs(),
                l,
                0,
                "{"@,
            ) && text_at(final(self).docs(), l, l.len() - 1, "}"@),
            block_doc(old(self).source_bytes(), final(self).docs(), idx.0 as int, *block, old(self).indent_width()),
        decreases block, 0int,
    {
        let ghost src = self.source_bytes();
        let ghost mut stmts: Seq<DocumentIdx> = Seq::empty();
        let upper = if block.statements.len() > 0 {
            span_of_statement(&block.statements[0]).start
        } else {
            match &block.result {
                Some(result) => result.span.start,
                None => end,
            }
        };
        let open_trailing = self.claim_open_trailing(comments, start, upper);
        let open = self.text("{");
        let mut list: Vec<DocumentIdx> = vec![open];
        self.emit_trailing(&open_trailing, &mut list);
        proof {
            assert(list@[0] == open);
        }
        let mut nest: Vec<DocumentIdx> = Vec::new();
        let mut prev_end_line: Option<usize> = None;
        let mut last_end_byte: usize = start;
        let mut i: usize = 0;
        while i < block.statements.len()
            invariant
                (self.reported() == old(self).reported()) <==> statements_ok(old(self).source_bytes(), block.statements@, i as int),
                i <= block.statements@.len(),
                self.grows(old(self)),
                comments.kept_from(old(comments)),
                self.ready(comments),
                all_below(list@, self.docs().len() as int),
                all_below(nest@, self.docs().len() as int),
                list@.len() >= 1 && list@[0] == open && names(self.docs(), open, DocumentView::Text("{"@)),
                stmts.len() == i,
                in_order(stmts, nest@),
                forall|k: int|
                    0 <= k < i ==> #[trigger] statement_doc(src, self.docs(), stmts[k].0 as int, block.statements@[k], old(self).indent_width()),
                src == old(self).source_bytes(),
            decreases block.statements@.len() - i,
        {
            let ghost d0 = self.docs();
            let ghost n0 = nest@;
            let statement = &block.statements[i];
            let range = span_of_statement(statement);
            let leading = self.claim_leading(comments, range.start, false, false);
            let line = self.line_of(comments, range.start);
            let effective_start = if leading.len() > 0 {
                leading[0].start_line
            } else {
                line
            };
            if let Some(prev) = prev_end_line {
                if prev < effective_start && effective_start - prev > 1 {
                    let gap = self.newline();
                    nest.push(gap);
                }
            }
            self.emit_leading(&leading, line, &mut nest);
            let ghost n1 = nest@;
            proof {
                lemma_in_order_extend(stmts, n0, n1);
            }
            let stmt_doc = self.build_statement(statement, comments);
            let ghost d1 = self.docs();
            nest.push(stmt_doc);
            proof {
                lemma_in_order_push_both(stmts, n1, stmt_doc);
            }
            let ghost n2 = nest@;
            let end_line = self.line_of(comments, range.end);
            let trailing = comments.take_trailing(range.end, end_line);
            self.emit_trailing(&trailing, &mut nest);
            let line_break = self.newline();
            nest.push(line_break);
            prev_end_line = Some(
                if trailing.len() > 0 {
                    trailing[trailing.len() - 1].end_line
                } else {
                    end_line
                },
            );
            last_end_byte = range.end;
            proof {
                lemma_in_order_extend(stmts.push(stmt_doc), n2, nest@);
                assert forall|k: int| 0 <= k < i implies #[trigger] statement_doc(
                    src,
                    self.docs(),
                    stmts[k].0 as int,
                    block.statements@[k], old(self).indent_width(),
                ) by {
                    lemma_statement_doc_grows(src, d0, self.docs(), stmts[k].0 as int, block.statements@[k], old(self).indent_width());
                }
                lemma_statement_doc_grows(src, d1, self.docs(), stmt_doc.0 as int, *statement, old(self).indent_width());
                stmts = stmts.push(stmt_doc);
            }
            i = i + 1;
        }
        let ghost d_stmts = self.docs();
        let ghost n_stmts = nest@;
        if let Some(result) = &block.result {
            let range_start = result.span.start;
            let range_end = result.span.end;
            let leading = self.claim_leading(comments, range_start, false, false);
            let line = self.line_of(comments, range_start);
            let effective_start = if leading.len() > 0 {
                leading[0].start_line
            } else {
                line
            };
            if let Some(prev) = prev_end_line {
                if prev < effective_start && effective_start - prev > 1 {
                    let gap = self.newline();
                    nest.push(gap);
                }
            }
            self.emit_leading(&leading, line, &mut nest);
            let result_doc = self.build_expression(result, comments);
            nest.push(result_doc);
            let end_line = self.line_of(comments, range_end);
            let trailing = comments.take_trailing(range_end, end_line);
            self.emit_trailing(&trailing, &mut nest);
            let line_break = self.newline();
            nest.push(line_break);
            prev_end_line = Some(
                if trailing.len() > 0 {
                    trailing[trailing.len() - 1].end_line
                } else {
                    end_line
                },
            );
            last_end_byte = range_end;
        }
        proof {
            lemma_in_order_extend(stmts, n_stmts, nest@);
        }
        // Scope-trailing comments before the closing brace.
        let rest = self.claim_between(comments, last_end_byte, end);
        let ghost r_rest = self.reported();
        let mut k: usize = 0;
        while k < rest.len()
            invariant
                self.reported() == r_rest,
                (r_rest == old(self).reported()) <==> block_ok(old(self).source_bytes(), *block),
                k <= rest@.len(),
                self.grows(old(self)),
                all_below(list@, self.docs().len() as int),
                all_below(nest@, self.docs().len() as int),
                list@.len() >= 1 && list@[0] == open && names(self.docs(), open, DocumentView::Text("{"@)),
                in_order(stmts, nest@),
                keeps(d_stmts, self.docs()),
                stmts.len() == block.statements@.len(),
                forall|k: int|
                    0 <= k < stmts.len() ==> #[trigger] statement_doc(src, d_stmts, stmts[k].0 as int, block.statements@[k], old(self).indent_width()),
            decreases rest@.len() - k,
        {
            let ghost n0 = nest@;
            let comment = rest[k];
            if let Some(prev) = prev_end_line {
                if prev < comment.start_line && comment.start_line - prev > 1 {
                    let gap = self.newline();
                    nest.push(gap);
                }
            }
            let raw = self.raw_text(dedented_raw(comment.text));
            nest.push(raw);
            let line_break = self.newline();
            nest.push(line_break);
            prev_end_line = Some(comment.end_line);
            proof {
                lemma_in_order_extend(stmts, n0, nest@);
            }
            k = k + 1;
        }
        let ghost mut body_idx = DocumentIdx(0);
        let ghost mut nested_idx = DocumentIdx(0);
        let ghost mut d_nested: Seq<DocumentView> = Seq::empty();
        if nest.len() > 0 {
            let line_break = self.newline();
            list.push(line_break);
            let ghost d_trim = self.docs();
            let ghost n_final = nest@;
            proof {
                assert forall|k: int| 0 <= k < stmts.len() implies #[trigger] statement_doc(
                    src,
                    d_trim,
                    stmts[k].0 as int,
                    block.statements@[k], old(self).indent_width(),
                ) by {
                    lemma_statement_doc_grows(src, d_stmts, d_trim, stmts[k].0 as int, block.statements@[k], old(self).indent_width());
                }
                assert forall|k: int| 0 <= k < stmts.len() implies 0 <= (#[trigger] stmts[k]).0 < d_trim.len()
                    && d_trim[stmts[k].0 as int] != DocumentView::Newline by {
                    assert(statement_doc(src, d_trim, stmts[k].0 as int, block.statements@[k], old(self).indent_width()));
                }
                assert(none_newline(d_trim, stmts));
                lemma_in_order_skip_newlines(d_trim, stmts, n_final);
                lemma_in_order_drop_doubled(d_trim, stmts, skip_leading_newlines(d_trim, n_final));
            }
            let body = self.trim_list(nest);
            let by = self.indent;
            let nested = self.nest(body, by);
            list.push(nested);
            proof {
                body_idx = body;
                nested_idx = nested;
                d_nested = self.docs();
                assert(statements_in(src, d_nested, drop_doubled_trailing(d_trim, skip_leading_newlines(d_trim, n_final)), block.statements@, old(self).indent_width())) by {
                    assert forall|k: int| 0 <= k < stmts.len() implies #[trigger] statement_doc(
                        src,
                        d_nested,
                        stmts[k].0 as int,
                        block.statements@[k], old(self).indent_width(),
                    ) by {
                        lemma_statement_doc_grows(src, d_trim, d_nested, stmts[k].0 as int, block.statements@[k], old(self).indent_width());
                    }
                }
            }
        } else if open_trailing.len() > 0 {
            // The trailed `{` cannot be closed on its own line.
            let line_break = self.newline();
            list.push(line_break);
        }
        let close = self.text("}");
        list.push(close);
        proof {
            assert(list@[0] == open);
        }
        let idx = self.list(list);
        proof {
            if block.statements@.len() > 0 {
                let d = self.docs();
                let l = list@;
                assert(nest@.len() > 0);
                assert(l[l.len() - 2] == nested_idx);
                assert(d[nested_idx.0 as int] == d_nested[nested_idx.0 as int]);
                assert(d[body_idx.0 as int] == d_nested[body_idx.0 as int]);
                let bl = d[body_idx.0 as int]->List_0;
                let witness = choose|w: Seq<DocumentIdx>|
                    #![trigger in_order(w, bl)]
                    w.len() == block.statements@.len() && in_order(w, bl) && forall|k: int|
                        0 <= k < block.statements@.len() ==> #[trigger] statement_doc(src, d_nested, w[k].0 as int, block.statements@[k], old(self).indent_width());
                assert forall|k: int| 0 <= k < block.statements@.len() implies #[trigger] statement_doc(
                    src,
                    d,
                    witness[k].0 as int,
                    block.statements@[k], old(self).indent_width(),
                ) by {
                    lemma_statement_doc_grows(src, d_nested, d, witness[k].0 as int, block.statements@[k], old(self).indent_width());
                }
                assert(statements_in(src, d, bl, block.statements@, old(self).indent_width()));
            }
        }
        idx
    }

    /// The parts of a register statement before its `;`.
    #[verifier::rlimit(100)]
    #[verifier::spinoff_prover]
    fn build_register<'c>(&mut self, statement: &Loc<Statement>, comments: &mut CommentMap<'c>) -> (list: Vec<
        DocumentIdx,
    >)
        requires
            statement.inner is Register,
            old(self).ready(old(comments)),
        ensures
            statement_ok(old(self).source_bytes(), *statement) <==> final(self).reported() == old(self).reported(),
            final(self).grows(old(self)),
            final(comments).kept_from(old(comments)),
            all_below(list@, final(self).docs().len() as int),
            statement.inner matches Statement::Register(register) && list@.len() == 8 + (if register.inner.value_type is Some {
                2int
            } else {
                0int
            }) + (if register.inner.reset is Some {
                5int
            } else {
                0int
            }) + (if register.inner.initial is Some {
                3int
            } else {
                0int
            }) && register_parts(
                old(self).source_bytes(),
                final(self).docs(),
                list@,
                register.inner,
                old(self).indent_width(),
            ),
        decreases statement, 0int,
    {
        let ghost src = self.source_bytes();
        let ghost indent = self.indent_width();
        let mut list: Vec<DocumentIdx> = Vec::new();
        match &statement.inner {
            Statement::Register(register) => {
                let ghost t: int = if register.inner.value_type is Some { 2 } else { 0 };
                let ghost r: int = if register.inner.reset is Some { 5 } else { 0 };
                let ghost n: int = if register.inner.initial is Some { 3 } else { 0 };
                let attributes = self.build_attribute_list(&register.inner.attributes, true, comments);
                list.push(attributes);
                let reg = self.text("reg(");
                list.push(reg);
                let ghost d_reg = self.docs();
                let clock = self.build_expression(&register.inner.clock, comments);
                list.push(clock);
                let ghost d_clock = self.docs();
                let close = self.text(") ");
                list.push(close);
                let ghost d_close = self.docs();
                let pattern = self.build_pattern(&register.inner.pattern, comments);
                list.push(pattern);
                let ghost d_pattern = self.docs();
                let ghost mut colon_idx = DocumentIdx(0);
                let ghost mut d_colon: Seq<DocumentView> = Seq::empty();
                if let Some(value_type) = &register.inner.value_type {
                    let colon = self.text(": ");
                    list.push(colon);
                    proof {
                        colon_idx = colon;
                        d_colon = self.docs();
                    }
                    let ty_doc = self.build_type_spec(value_type, comments);
                    list.push(ty_doc);
                }
                let space = self.text(" ");
                list.push(space);
                let ghost d_space = self.docs();
                let ghost l_space = list@;
                let ghost mut reset_open = DocumentIdx(0);
                let ghost mut d_reset_open: Seq<DocumentView> = Seq::empty();
                let ghost mut reset_condition = DocumentIdx(0);
                let ghost mut d_reset_condition: Seq<DocumentView> = Seq::empty();
                let ghost mut reset_colon = DocumentIdx(0);
                let ghost mut d_reset_colon: Seq<DocumentView> = Seq::empty();
                let ghost mut reset_value = DocumentIdx(0);
                let ghost mut d_reset_value: Seq<DocumentView> = Seq::empty();
                let ghost mut reset_close = DocumentIdx(0);
                let ghost mut d_reset_close: Seq<DocumentView> = Seq::empty();
                if let Some(reset) = &register.inner.reset {
                    let open = self.text("reset(");
                    list.push(open);
                    let ghost d1 = self.docs();
                    let condition = self.build_expression(&reset.0, comments);
                    list.push(condition);
                    let ghost d2 = self.docs();
                    let colon = self.text(": ");
                    list.push(colon);
                    let ghost d3 = self.docs();
                    let value = self.build_expression(&reset.1, comments);
                    list.push(value);
                    let ghost d4 = self.docs();
                    let close = self.text(") ");
                    list.push(close);
                    proof {
                        reset_open = open;
                        d_reset_open = d1;
                        reset_condition = condition;
                        d_reset_condition = d2;
                        reset_colon = colon;
                        d_reset_colon = d3;
                        reset_value = value;
                        d_reset_value = d4;
                        reset_close = close;
                        d_reset_close = self.docs();
                    }
                }
                let ghost l_reset = list@;
                let ghost mut initial_open = DocumentIdx(0);
                let ghost mut d_initial_open: Seq<DocumentView> = Seq::empty();
                let ghost mut initial_value = DocumentIdx(0);
                let ghost mut d_initial_value: Seq<DocumentView> = Seq::empty();
                let ghost mut initial_close = DocumentIdx(0);
                let ghost mut d_initial_close: Seq<DocumentView> = Seq::empty();
                if let Some(initial) = &register.inner.initial {
                    let open = self.text("initial(");
                    list.push(open);
                    let ghost d1 = self.docs();
                    let value = self.build_expression(initial, comments);
                    list.push(value);
                    let ghost d2 = self.docs();
                    let close = self.text(") ");
                    list.push(close);
                    proof {
                        initial_open = open;
                        d_initial_open = d1;
                        initial_value = value;
                        d_initial_value = d2;
                        initial_close = close;
                        d_initial_close = self.docs();
                    }
                }
                let ghost l_initial = list@;
                let equals = self.text("= ");
                list.push(equals);
                let ghost d_equals = self.docs();
                let value = self.build_expression(&register.inner.value, comments);
                list.push(value);
                proof {
                    let d = self.docs();
                    let l = list@;
                    assert(l_space.len() == 6 + t);
                    assert(l_reset.len() == 6 + t + r);
                    assert(l_initial.len() == 6 + t + r + n);
                    assert(l.len() == 8 + t + r + n);
                    assert(l[1] == reg && d[reg.0 as int] == d_reg[reg.0 as int]);
                    assert(l[2] == clock);
                    lemma_operand_doc_grows(src, d_clock, d, clock.0 as int, register.inner.clock);
                    assert(l[3] == close && d[close.0 as int] == d_close[close.0 as int]);
                    assert(l[4] == pattern);
                    lemma_pattern_doc_grows(src, d_pattern, d, pattern.0 as int, register.inner.pattern.inner, indent);
                    if register.inner.value_type is Some {
                        assert(l[5] == colon_idx && d[colon_idx.0 as int] == d_colon[colon_idx.0 as int]);
                    }
                    assert(l[5 + t] == l_space[5 + t]);
                    assert(l_space[5 + t] == space && d[space.0 as int] == d_space[space.0 as int]);
                    if register.inner.reset is Some {
                        let reset = register.inner.reset->0;
                        assert(l[6 + t] == l_reset[6 + t] && l_reset[6 + t] == reset_open);
                        assert(l[7 + t] == l_reset[7 + t] && l_reset[7 + t] == reset_condition);
                        assert(l[8 + t] == l_reset[8 + t] && l_reset[8 + t] == reset_colon);
                        assert(l[9 + t] == l_reset[9 + t] && l_reset[9 + t] == reset_value);
                        assert(l[10 + t] == l_reset[10 + t] && l_reset[10 + t] == reset_close);
                        assert(d[reset_open.0 as int] == d_reset_open[reset_open.0 as int]);
                        assert(d[reset_colon.0 as int] == d_reset_colon[reset_colon.0 as int]);
                        assert(d[reset_close.0 as int] == d_reset_close[reset_close.0 as int]);
                        lemma_operand_doc_grows(src, d_reset_condition, d, reset_condition.0 as int, reset.0);
                        lemma_operand_doc_grows(src, d_reset_value, d, reset_value.0 as int, reset.1);
                    }
                    if register.inner.initial is Some {
                        assert(l[6 + t + r] == l_initial[6 + t + r] && l_initial[6 + t + r] == initial_open);
                        assert(l[7 + t + r] == l_initial[7 + t + r] && l_initial[7 + t + r] == initial_value);
                        assert(l[8 + t + r] == l_initial[8 + t + r] && l_initial[8 + t + r] == initial_close);
                        assert(d[initial_open.0 as int] == d_initial_open[initial_open.0 as int]);
                        assert(d[initial_close.0 as int] == d_initial_close[initial_close.0 as int]);
                        lemma_operand_doc_grows(src, d_initial_value, d, initial_value.0 as int, register.inner.initial->0);
                    }
                    assert(l[6 + t + r + n] == equals && d[equals.0 as int] == d_equals[equals.0 as int]);
                    assert(l[7 + t + r + n] == value);
                }
            },
            _ => {},
        }
        list
    }

    #[verifier::rlimit(100)]
    #[verifier::spinoff_prover]
    pub fn build_statement<'c>(&mut self, statement: &Loc<Statement>, comments: &mut CommentMap<'c>) -> (idx:
        DocumentIdx)
        requires
            old(self).ready(old(comments)),
        ensures
            statement_ok(old(self).source_bytes(), *statement) <==> final(self).reported() == old(self).reported(),
            built(final(self), old(self), final(comments), old(comments), idx),
            statement_doc(old(self).source_bytes(), final(self).docs(), idx.0 as int, *statement, old(self).indent_width()),
        decreases statement, 1int,
    {
        let mut list: Vec<DocumentIdx> = Vec::new();
        let ghost mut first_docs: Seq<DocumentView> = Seq::empty();
        let ghost mut first_idx: DocumentIdx = DocumentIdx(0);
        let ghost mut second_docs: Seq<DocumentView> = Seq::empty();
        let ghost mut second_idx: DocumentIdx = DocumentIdx(0);
        let ghost mut parts_list: Seq<DocumentIdx> = Seq::empty();
        let wants_semi = match &statement.inner {
            Statement::Label(name) => {
                let name_text = self.identifier_text(name);
                let label = self.text2("'", name_text.as_str());
                list.push(label);
                false
            },
            Statement::Declaration(names) => {
                let mut text = owned("decl ");
                let mut i: usize = 0;
                while i < names.len()
                    invariant
                        i <= names@.len(),
                        self.wf(),
                    decreases names@.len() - i,
                {
                    if i > 0 {
                        text.append(", ");
                    }
                    let name_text = self.identifier_text(&names[i]);
                    text.append(name_text.as_str());
                    i = i + 1;
                }
                let declaration = self.text_owned(text);
                list.push(declaration);
                true
            },
            Statement::Binding(binding) => {
                let attributes = self.build_attribute_list(&binding.attrs, true, comments);
                list.push(attributes);
                let let_doc = self.text("let ");
                list.push(let_doc);
                let pattern = self.build_pattern(&binding.pattern, comments);
                list.push(pattern);
                if let Some(ty) = &binding.ty {
                    let colon = self.text(": ");
                    list.push(colon);
                    let ty_doc = self.build_type_spec(ty, comments);
                    list.push(ty_doc);
                }
                let equals = self.text(" = ");
                list.push(equals);
                let value = self.build_expression(&binding.value, comments);
                proof {
                    first_docs = self.docs();
                    first_idx = value;
                }
                list.push(value);
                true
            },
            Statement::PipelineRegMarker(count, condition) => {
                let reg = self.text("reg");
                list.push(reg);
                if let Some(condition) = condition {
                    let open = self.text("[");
                    list.push(open);
                    let condition_doc = self.build_expression(condition, comments);
                    list.push(condition_doc);
                    let close = self.text("]");
                    list.push(close);
                }
                if let Some(count) = count {
                    let times = self.text(" * ");
                    list.push(times);
                    let count_doc = self.build_type_expression(count, comments);
                    list.push(count_doc);
                }
                true
            },
            Statement::Register(_) => {
                let parts = self.build_register(statement, comments);
                proof {
                    first_docs = self.docs();
                    parts_list = parts@;
                }
                list = parts;
                true
            },
            Statement::SetValue { target, value } => {
                let set = self.text("set ");
                list.push(set);
                let target_doc = self.build_expression(target, comments);
                proof {
                    first_docs = self.docs();
                    first_idx = target_doc;
                }
                list.push(target_doc);
                let equals = self.text(" = ");
                list.push(equals);
                let value_doc = self.build_expression(value, comments);
                proof {
                    second_docs = self.docs();
                    second_idx = value_doc;
                }
                list.push(value_doc);
                true
            },
            // Not formattable yet; the asserted expression is still walked
            // so that everything unsupported in it is reported in the same
            // run.
            Statement::Assert(expression) => {
                let _ = self.build_expression(expression, comments);
                let unsupported_doc = self.unsupported(statement.span, "`assert` statements");
                list.push(unsupported_doc);
                true
            },
            Statement::Expression(expression, attributes) => {
                let attributes_doc = self.build_attribute_list(attributes, true, comments);
                list.push(attributes_doc);
                let expression_doc = self.build_expression(expression, comments);
                proof {
                    first_docs = self.docs();
                    first_idx = expression_doc;
                }
                list.push(expression_doc);
                true
            },
            // Enum and struct take no semicolon; an alias owns its own.
            Statement::Type(declaration) => {
                let declaration_doc = self.build_type_declaration(declaration, comments);
                proof {
                    first_docs = self.docs();
                    first_idx = declaration_doc;
                }
                list.push(declaration_doc);
                false
            },
        };
        if wants_semi {
            let semi = self.text(";");
            list.push(semi);
        }
        let idx = self.list(list);
        proof {
            let src = old(self).source_bytes();
            if statement.inner is Binding {
                lemma_operand_doc_grows(src, first_docs, self.docs(), first_idx.0 as int, statement.inner->Binding_0.value);
            } else if statement.inner is SetValue {
                lemma_operand_doc_grows(src, first_docs, self.docs(), first_idx.0 as int, statement.inner->target);
                lemma_operand_doc_grows(src, second_docs, self.docs(), second_idx.0 as int, statement.inner->value);
            } else if statement.inner is Expression {
                lemma_operand_doc_grows(src, first_docs, self.docs(), first_idx.0 as int, statement.inner->Expression_0);
            } else if statement.inner is Register {
                let register = statement.inner->Register_0;
                lemma_register_parts_keeps(src, first_docs, self.docs(), parts_list, list@, register.inner, old(self).indent_width());
            } else if statement.inner is Type {
                lemma_type_declaration_doc_grows(
                    src,
                    first_docs,
                    self.docs(),
                    first_idx.0 as int,
                    statement.inner->Type_0.inner,
                    old(self).indent_width(),
                );
            }
        }
        idx
    }

    pub fn build_pattern<'c>(&mut self, pattern: &Loc<Pattern>, comments: &mut CommentMap<'c>) -> (idx:
        DocumentIdx)
        requires
            old(self).ready(old(comments)),
        ensures
            pattern_ok(old(self).source_bytes(), *pattern) <==> final(self).reported() == old(self).reported(),
            built(final(self), old(self), final(comments), old(comments), idx),
            pattern_doc(old(self).source_bytes(), final(self).docs(), idx.0 as int, pattern.inner, old(self).indent_width()),
        decreases pattern, 0int,
    {
        let ghost src = self.source_bytes();
        let ghost indent = self.indent_width();
        let leading = self.inline_leading(comments, pattern.span.start);
        let doc = match &pattern.inner {
            Pattern::Integer | Pattern::Bool(_) => self.signed_literal(
                pattern.span.start,
                pattern.span.end,
                comments,
            ),
            Pattern::Bound(name, inner) => {
                let name_text = self.identifier_text(name);
                let name_doc = self.text2(name_text.as_str(), " @ ");
                let ghost d_name = self.docs();
                let inner_doc = self.build_pattern(inner, comments);
                let idx = self.list(vec![name_doc, inner_doc]);
                proof {
                    assert(self.docs()[name_doc.0 as int] == d_name[name_doc.0 as int]);
                }
                idx
            },
            Pattern::Path { wire, path } => {
                let mut list: Vec<DocumentIdx> = Vec::new();
                if *wire {
                    let wire_doc = self.text("wire ");
                    list.push(wire_doc);
                }
                let ghost d_wire = self.docs();
                let path_doc = self.build_path(path);
                list.push(path_doc);
                let idx = self.list(list);
                proof {
                    if *wire {
                        assert(self.docs()[list@[0].0 as int] == d_wire[list@[0].0 as int]);
                    }
                }
                idx
            },
            Pattern::Tuple(elements) => {
                let bodies = self.group_patterns(pattern.span.start, pattern.span.end, elements, comments);
                let ghost before_wrap = self.docs();
                let idx = self.wrap_group("(", bodies, ")");
                proof {
                    reveal_strlit("(");
                    reveal_strlit(")");
                    lemma_wrapped_delimited(self.docs(), idx.0 as int, "("@, ")"@, bodies);
                    if elements@.len() > 0 {
                        let es = choose|es: Seq<DocumentIdx>|
                            es.len() == elements@.len() && #[trigger] group_holds_in_order(before_wrap, bodies, es, indent);
                        lemma_group_holds_in_order_grows(before_wrap, self.docs(), bodies, es, indent);
                        assert(group_doc(self.docs(), idx.0 as int, "("@, ")"@, elements@.len() as int, indent));
                    }
                }
                idx
            },
            Pattern::Array(elements) => {
                let bodies = self.group_patterns(pattern.span.start, pattern.span.end, elements, comments);
                let ghost before_wrap = self.docs();
                let idx = self.wrap_group("[", bodies, "]");
                proof {
                    reveal_strlit("[");
                    reveal_strlit("]");
                    lemma_wrapped_delimited(self.docs(), idx.0 as int, "["@, "]"@, bodies);
                    if elements@.len() > 0 {
                        let es = choose|es: Seq<DocumentIdx>|
                            es.len() == elements@.len() && #[trigger] group_holds_in_order(before_wrap, bodies, es, indent);
                        lemma_group_holds_in_order_grows(before_wrap, self.docs(), bodies, es, indent);
                        assert(group_doc(self.docs(), idx.0 as int, "["@, "]"@, elements@.len() as int, indent));
                    }
                }
                idx
            },
            Pattern::Type(name, arguments) => {
                let name_doc = self.build_path(name);
                let ghost d_name = self.docs();
                let arguments_doc = self.build_argument_pattern(arguments, comments);
                let idx = self.list(vec![name_doc, arguments_doc]);
                proof {
                    assert(self.docs()[name_doc.0 as int] == d_name[name_doc.0 as int]);
                }
                idx
            },
        };
        proof {
            assert(pattern_shape(src, self.docs(), doc.0 as int, pattern.inner, indent));
        }
        let ghost d_doc = self.docs();
        let idx = self.with_inline_leading(&leading, doc);
        proof {
            lemma_pattern_shape_grows(src, d_doc, self.docs(), doc.0 as int, pattern.inner, indent);
        }
        idx
    }

    pub fn build_argument_pattern<'c>(&mut self, arguments: &Loc<ArgumentPattern>, comments: &mut CommentMap<'c>) -> (idx:
        DocumentIdx)
        requires
            old(self).ready(old(comments)),
        ensures
            argument_pattern_ok(old(self).source_bytes(), *arguments) <==> final(self).reported() == old(self).reported(),
            built(final(self), old(self), final(comments), old(comments), idx),
        decreases arguments, 0int,
    {
        match &arguments.inner {
            ArgumentPattern::Named(named) => {
                let bodies = self.group_named_pattern_args(arguments.span.start, arguments.span.end, named, comments);
                self.wrap_group("$(", bodies, ")")
            },
            ArgumentPattern::Positional(positional) => {
                let bodies = self.group_patterns(arguments.span.start, arguments.span.end, positional, comments);
                self.wrap_group("(", bodies, ")")
            },
        }
    }

    pub fn build_named_pattern_argument<'c>(&mut self, argument: &NamedPatternArgument, comments: &mut CommentMap<'c>) -> (idx:
        DocumentIdx)
        requires
            old(self).ready(old(comments)),
        ensures
            (argument.1 matches Some(p) ==> pattern_ok(old(self).source_bytes(), p)) <==> final(self).reported() == old(self).reported(),
            built(final(self), old(self), final(comments), old(comments), idx),
        decreases argument, 0int,
    {
        match &argument.1 {
            Some(pattern) => {
                let name_text = self.identifier_text(&argument.0);
                let name_doc = self.text2(name_text.as_str(), ": ");
                let pattern_doc = self.build_pattern(pattern, comments);
                self.list(vec![name_doc, pattern_doc])
            },
            None => self.identifier(&argument.0),
        }
    }

    pub fn build_type_expression<'c>(&mut self, type_expression: &Loc<TypeExpression>, comments: &mut CommentMap<'c>) -> (idx:
        DocumentIdx)
        requires
            old(self).ready(old(comments)),
        ensures
            type_expression_ok(old(self).source_bytes(), *type_expression) <==> final(self).reported() == old(self).reported(),
            built(final(self), old(self), final(comments), old(comments), idx),
        decreases type_expression, 0int,
    {
        match &type_expression.inner {
            TypeExpression::TypeSpec(type_spec) => self.build_type_spec(type_spec, comments),
            TypeExpression::Bool(_) | TypeExpression::Integer => self.signed_literal(
                type_expression.span.start,
                type_expression.span.end,
                comments,
            ),
            // Const generics are always brace-delimited in type position.
            TypeExpression::ConstGeneric(expression) => {
                let open = self.text("{");
                let expression_doc = self.build_expression(expression, comments);
                let close = self.text("}");
                self.list(vec![open, expression_doc, close])
            },
            TypeExpression::StringLiteral(value) => self.string_literal(value),
        }
    }

    pub fn build_type_spec<'c>(&mut self, type_spec: &Loc<TypeSpec>, comments: &mut CommentMap<'c>) -> (idx:
        DocumentIdx)
        requires
            old(self).ready(old(comments)),
        ensures
            type_spec_ok(old(self).source_bytes(), *type_spec) <==> final(self).reported() == old(self).reported(),
            built(final(self), old(self), final(comments), old(comments), idx),
        decreases type_spec, 0int,
    {
        let leading = self.inline_leading(comments, type_spec.span.start);
        let doc = match &type_spec.inner {
            TypeSpec::Tuple(elements) => {
                let bodies = self.group_type_exprs(
                    type_spec.span.start,
                    type_spec.span.end,
                    elements,
                    elements.len(),
                    comments,
                );
                self.wrap_group("(", bodies, ")")
            },
            TypeSpec::Array { inner, size } => {
                let open = self.text("[");
                let inner_doc = self.build_type_expression(inner, comments);
                let semi = self.text(";");
                let space = self.text(" ");
                let size_doc = self.build_type_expression(size, comments);
                let close = self.text("]");
                self.list(vec![open, inner_doc, semi, space, size_doc, close])
            },
            TypeSpec::Named(path, type_params) => {
                let path_doc = self.build_path(path);
                let mut list: Vec<DocumentIdx> = vec![path_doc];
                if let Some(params) = type_params {
                    let bodies = self.group_type_exprs(
                        params.span.start,
                        params.span.end,
                        &params.inner,
                        params.inner.len(),
                        comments,
                    );
                    let params_doc = self.wrap_group("<", bodies, ">");
                    list.push(params_doc);
                }
                self.list(list)
            },
            TypeSpec::Inverted(inner) => {
                let inv = self.text("inv ");
                let inner_doc = self.build_type_expression(inner, comments);
                self.list(vec![inv, inner_doc])
            },
            TypeSpec::CopyView(inner) => {
                let amp = self.text("&");
                let inner_doc = self.build_type_expression(inner, comments);
                self.list(vec![amp, inner_doc])
            },
            TypeSpec::Impl(traits) => {
                let impl_doc = self.text("impl ");
                let mut list: Vec<DocumentIdx> = vec![impl_doc];
                self.push_trait_specs(traits, &mut list, comments);
                self.list(list)
            },
            TypeSpec::Wildcard => self.text("_"),
        };
        self.with_inline_leading(&leading, doc)
    }

    pub fn build_type_param<'c>(&mut self, type_param: &Loc<TypeParam>, comments: &mut CommentMap<'c>) -> (idx:
        DocumentIdx)
        requires
            old(self).ready(old(comments)),
        ensures
            type_param_ok(old(self).source_bytes(), *type_param) <==> final(self).reported() == old(self).reported(),
            built(final(self), old(self), final(comments), old(comments), idx),
            type_param.inner matches TypeParam::TypeName { name, traits, default } ==> (final(self).docs()[idx.0 as int] matches DocumentView::List(l) && l.len() == 1 + (if traits@.len() > 0 {
                2int
            } else {
                0int
            }) + (if default is Some {
                2int
            } else {
                0int
            }) && names(final(self).docs(), l[0], DocumentView::Text(identifier_spelling(old(self).source_bytes(), name)))
                && (traits@.len() > 0 ==> names(final(self).docs(), l[1], DocumentView::Text(": "@)))
                && (default is Some ==> names(final(self).docs(), l[l.len() - 2], DocumentView::Text(" = "@)))),
            type_param.inner matches TypeParam::TypeWithMeta { meta, name, default } ==> (final(self).docs()[idx.0 as int] matches DocumentView::List(l) && l.len() == 1 + (if default is Some {
                2int
            } else {
                0int
            }) && names(
                final(self).docs(),
                l[0],
                DocumentView::Text(
                    seq!['#'] + meta.inner.0@ + seq![' '] + identifier_spelling(old(self).source_bytes(), name),
                ),
            ) && (default is Some ==> names(final(self).docs(), l[1], DocumentView::Text(" = "@)))),
        decreases type_param, 0int,
    {
        match &type_param.inner {
            TypeParam::TypeName { name, traits, default } => {
                let name_doc = self.identifier(name);
                let mut list: Vec<DocumentIdx> = vec![name_doc];
                if traits.len() > 0 {
                    let colon = self.text(": ");
                    list.push(colon);
                    let bounds = self.trait_bound_layouts(traits, comments);
                    list.push(bounds);
                }
                if let Some(default) = default {
                    let equals = self.text(" = ");
                    list.push(equals);
                    let default_doc = self.build_type_expression(default, comments);
                    list.push(default_doc);
                }
                self.list(list)
            },
            TypeParam::TypeWithMeta { meta, name, default } => {
                let name_text = self.identifier_text(name);
                let head = concat3("#", meta.inner.0.as_str(), " ");
                let head_doc = self.text_owned(concat(head.as_str(), name_text.as_str()));
                proof {
                    reveal_strlit("#");
                    reveal_strlit(" ");
                    assert("#"@ =~= seq!['#']);
                    assert(" "@ =~= seq![' ']);
                }
                let mut list: Vec<DocumentIdx> = vec![head_doc];
                if let Some(default) = default {
                    let equals = self.text(" = ");
                    list.push(equals);
                    let default_doc = self.build_type_expression(default, comments);
                    list.push(default_doc);
                }
                self.list(list)
            },
        }
    }

    #[verifier::rlimit(100)]
    #[verifier::spinoff_prover]
    pub fn build_trait_spec<'c>(&mut self, trait_spec: &Loc<TraitSpec>, comments: &mut CommentMap<'c>) -> (idx:
        DocumentIdx)
        requires
            old(self).ready(old(comments)),
        ensures
            trait_spec_ok(old(self).source_bytes(), *trait_spec) <==> final(self).reported() == old(self).reported(),
            built(final(self), old(self), final(comments), old(comments), idx),
        decreases trait_spec, 0int,
    {
        let start = trait_spec.span.start;
        let end = trait_spec.span.end;
        // With the parenthesized syntax, the parser appended the argument
        // tuple and the return type as the last two type params (an empty
        // tuple stands in for a missing `-> O`, so an explicit `-> ()`
        // prints without the arrow).
        if trait_spec.inner.paren_syntax {
            let params = match &trait_spec.inner.type_params {
                Some(params) => &params.inner,
                None => {
                    return self.unsupported(trait_spec.span, "this parenthesized trait bound");
                },
            };
            if params.len() < 2 {
                // Not producible by the parser; fail soft regardless.
                return self.unsupported(trait_spec.span, "this parenthesized trait bound");
            }
            let explicit: usize = params.len() - 2;
            let args = &params[explicit];
            let output = &params[explicit + 1];
            let argument_types = match &args.inner {
                TypeExpression::TypeSpec(args_spec) => match &args_spec.inner {
                    TypeSpec::Tuple(argument_types) => argument_types,
                    _ => {
                        return self.unsupported(trait_spec.span, "this parenthesized trait bound");
                    },
                },
                _ => {
                    return self.unsupported(trait_spec.span, "this parenthesized trait bound");
                },
            };
            let path_doc = self.build_path(&trait_spec.inner.path);
            let mut list: Vec<DocumentIdx> = vec![path_doc];
            if explicit > 0 {
                let bodies = self.group_type_exprs(start, end, params, explicit, comments);
                let explicit_doc = self.wrap_group("<", bodies, ">");
                list.push(explicit_doc);
            }
            let bodies = self.group_type_exprs(start, end, argument_types, argument_types.len(), comments);
            let arguments_doc = self.wrap_group("(", bodies, ")");
            list.push(arguments_doc);
            let output_is_unit = match &output.inner {
                TypeExpression::TypeSpec(spec) => match &spec.inner {
                    TypeSpec::Tuple(elements) => elements.len() == 0,
                    _ => false,
                },
                _ => false,
            };
            if !output_is_unit {
                let arrow = self.text(" -> ");
                list.push(arrow);
                let output_doc = self.build_type_expression(output, comments);
                list.push(output_doc);
            }
            return self.list(list);
        }
        let path_doc = self.build_path(&trait_spec.inner.path);
        let mut list: Vec<DocumentIdx> = vec![path_doc];
        if let Some(type_params) = &trait_spec.inner.type_params {
            let bodies = self.group_type_exprs(
                type_params.span.start,
                type_params.span.end,
                &type_params.inner,
                type_params.inner.len(),
                comments,
            );
            let params_doc = self.wrap_group("<", bodies, ">");
            list.push(params_doc);
        }
        self.list(list)
    }

    pub fn build_turbofish<'c>(&mut self, turbofish: &Loc<TurbofishInner>, comments: &mut CommentMap<'c>) -> (idx:
        DocumentIdx)
        requires
            old(self).ready(old(comments)),
        ensures
            turbofish_ok(old(self).source_bytes(), *turbofish) <==> final(self).reported() == old(self).reported(),
            built(final(self), old(self), final(comments), old(comments), idx),
        decreases turbofish, 0int,
    {
        let separator = self.text("::");
        let group_doc = match &turbofish.inner {
            TurbofishInner::Named(arguments) => {
                let bodies = self.group_named_turbofish(turbofish.span.start, turbofish.span.end, arguments, comments);
                self.wrap_group("$<", bodies, ">")
            },
            TurbofishInner::Positional(arguments) => {
                let bodies = self.group_type_exprs(
                    turbofish.span.start,
                    turbofish.span.end,
                    arguments,
                    arguments.len(),
                    comments,
                );
                self.wrap_group("<", bodies, ">")
            },
        };
        self.list(vec![separator, group_doc])
    }

    pub fn build_argument_list<'c>(&mut self, argument_list: &Loc<ArgumentList>, comments: &mut CommentMap<'c>) -> (idx:
        DocumentIdx)
        requires
            old(self).ready(old(comments)),
        ensures
            argument_list_ok(old(self).source_bytes(), *argument_list) <==> final(self).reported() == old(self).reported(),
            built(final(self), old(self), final(comments), old(comments), idx),
        decreases argument_list, 0int,
    {
        match &argument_list.inner {
            ArgumentList::Positional(arguments) => {
                let bodies = self.group_exprs(argument_list.span.start, argument_list.span.end, arguments, comments);
                self.wrap_group("(", bodies, ")")
            },
            ArgumentList::Named(arguments) => {
                let bodies = self.group_named_args(argument_list.span.start, argument_list.span.end, arguments, comments);
                self.wrap_group("$(", bodies, ")")
            },
        }
    }

    pub fn build_named_turbofish<'c>(&mut self, named: &Loc<NamedTurbofish>, comments: &mut CommentMap<'c>) -> (idx:
        DocumentIdx)
        requires
            old(self).ready(old(comments)),
        ensures
            (named.inner matches NamedTurbofish::Full(_, value) ==> type_expression_ok(old(self).source_bytes(), value)) <==> final(self).reported() == old(self).reported(),
            built(final(self), old(self), final(comments), old(comments), idx),
        decreases named, 0int,
    {
        match &named.inner {
            NamedTurbofish::Full(name, value) => {
                let name_text = self.identifier_text(name);
                let name_doc = self.text2(name_text.as_str(), ": ");
                let value_doc = self.build_type_expression(value, comments);
                self.list(vec![name_doc, value_doc])
            },
            NamedTurbofish::Short(name) => self.identifier(name),
        }
    }

    pub fn build_named_argument<'c>(&mut self, named: &NamedArgument, comments: &mut CommentMap<'c>) -> (idx:
        DocumentIdx)
        requires
            old(self).ready(old(comments)),
        ensures
            (*named matches NamedArgument::Full(_, value) ==> expression_ok(old(self).source_bytes(), value)) <==> final(self).reported() == old(self).reported(),
            built(final(self), old(self), final(comments), old(comments), idx),
        decreases named, 0int,
    {
        match named {
            NamedArgument::Full(name, value) => {
                let name_text = self.identifier_text(name);
                let name_doc = self.text2(name_text.as_str(), ": ");
                let value_doc = self.build_expression(value, comments);
                self.list(vec![name_doc, value_doc])
            },
            NamedArgument::Short(name) => self.identifier(name),
        }
    }

    pub fn build_array_element<'c>(&mut self, element: &ArrayElement, comments: &mut CommentMap<'c>) -> (idx:
        DocumentIdx)
        requires
            old(self).ready(old(comments)),
        ensures
            expression_ok(old(self).source_bytes(), element.1) <==> final(self).reported() == old(self).reported(),
            built(final(self), old(self), final(comments), old(comments), idx),
        decreases element, 0int,
    {
        let mut list: Vec<DocumentIdx> = Vec::new();
        if let Some(label) = &element.0 {
            let label_text = self.identifier_text(label);
            let label_doc = self.text_owned(concat3("'", label_text.as_str(), " "));
            list.push(label_doc);
        }
        let value = self.build_expression(&element.1, comments);
        list.push(value);
        self.list(list)
    }

    /// ` where ...` with a leading space, or an empty document when there
    /// are no clauses.
    pub fn build_where_clauses<'c>(&mut self, clauses: &Vec<WhereClause>, comments: &mut CommentMap<'c>) -> (idx:
        DocumentIdx)
        requires
            old(self).ready(old(comments)),
        ensures
            where_clauses_ok(old(self).source_bytes(), clauses@, clauses@.len() as int) <==> final(self).reported() == old(self).reported(),
            built(final(self), old(self), final(comments), old(comments), idx),
        decreases clauses, 0int,
    {
        let mut list: Vec<DocumentIdx> = Vec::new();
        let mut i: usize = 0;
        while i < clauses.len()
            invariant
                (self.reported() == old(self).reported()) <==> where_clauses_ok(old(self).source_bytes(), clauses@, i as int),
                i <= clauses@.len(),
                self.grows(old(self)),
                comments.kept_from(old(comments)),
                self.ready(comments),
                all_below(list@, self.docs().len() as int),
            decreases clauses@.len() - i,
        {
            let lead = if i == 0 {
                self.text(" where ")
            } else {
                self.text(", ")
            };
            list.push(lead);
            match &clauses[i] {
                WhereClause::TraitBounds { target, traits } => {
                    let target_doc = self.build_path(target);
                    list.push(target_doc);
                    let colon = self.text(": ");
                    list.push(colon);
                    self.push_trait_specs(traits, &mut list, comments);
                },
                // The grandfathered `N: { expr }` syntax parses to the same
                // tree as `N == expr` and prints as the latter.
                WhereClause::GenericInt { target, kind, expression, if_unsatisfied } => {
                    let operator = match kind {
                        Inequality::Eq => " == ",
                        Inequality::Neq => " != ",
                        Inequality::Lt => " < ",
                        Inequality::Leq => " <= ",
                        Inequality::Gt => " > ",
                        Inequality::Geq => " >= ",
                    };
                    let target_doc = self.build_path(target);
                    list.push(target_doc);
                    let operator_doc = self.text(operator);
                    list.push(operator_doc);
                    let expression_doc = self.build_expression(expression, comments);
                    list.push(expression_doc);
                    if let Some(message) = if_unsatisfied {
                        let else_doc = self.text(" else ");
                        list.push(else_doc);
                        let message_doc = self.string_literal(message);
                        list.push(message_doc);
                    }
                },
            }
            i = i + 1;
        }
        self.list(list)
    }

    /// The trait specs of `traits`, separated by ` + `.
    fn push_trait_specs<'c>(
        &mut self,
        traits: &Vec<Loc<TraitSpec>>,
        list: &mut Vec<DocumentIdx>,
        comments: &mut CommentMap<'c>,
    )
        requires
            old(self).ready(old(comments)),
            all_below(old(list)@, old(self).docs().len() as int),
        ensures
            trait_specs_ok(old(self).source_bytes(), traits@, traits@.len() as int) <==> final(self).reported() == old(self).reported(),
            final(self).grows(old(self)),
            final(comments).kept_from(old(comments)),
            all_below(final(list)@, final(self).docs().len() as int),
        decreases traits, 0int,
    {
        let mut i: usize = 0;
        while i < traits.len()
            invariant
                (self.reported() == old(self).reported()) <==> trait_specs_ok(old(self).source_bytes(), traits@, i as int),
                i <= traits@.len(),
                self.grows(old(self)),
                comments.kept_from(old(comments)),
                self.ready(comments),
                all_below(list@, self.docs().len() as int),
            decreases traits@.len() - i,
        {
            if i > 0 {
                let plus = self.text(" + ");
                list.push(plus);
            }
            let trait_doc = self.build_trait_spec(&traits[i], comments);
            list.push(trait_doc);
            i = i + 1;
        }
    }

    /// The bounds of a type parameter, side by side when they fit and one
    /// per line (each after `+ `) when not.
    fn trait_bound_layouts<'c>(&mut self, traits: &Vec<Loc<TraitSpec>>, comments: &mut CommentMap<'c>) -> (idx:
        DocumentIdx)
        requires
            old(self).ready(old(comments)),
        ensures
            trait_specs_ok(old(self).source_bytes(), traits@, traits@.len() as int) <==> final(self).reported() == old(self).reported(),
            built(final(self), old(self), final(comments), old(comments), idx),
        decreases traits, 0int,
    {
        let mut flatten_list: Vec<DocumentIdx> = Vec::new();
        let mut nest_list: Vec<DocumentIdx> = Vec::new();
        let mut i: usize = 0;
        while i < traits.len()
            invariant
                (self.reported() == old(self).reported()) <==> trait_specs_ok(old(self).source_bytes(), traits@, i as int),
                i <= traits@.len(),
                self.grows(old(self)),
                comments.kept_from(old(comments)),
                self.ready(comments),
                all_below(flatten_list@, self.docs().len() as int),
                all_below(nest_list@, self.docs().len() as int),
            decreases traits@.len() - i,
        {
            if i > 0 {
                let plus = self.text(" + ");
                flatten_list.push(plus);
                let line_break = self.newline();
                nest_list.push(line_break);
                let leading_plus = self.text("+ ");
                nest_list.push(leading_plus);
            }
            // Built once so comment claims land in both layouts.
            let spec_doc = self.build_trait_spec(&traits[i], comments);
            flatten_list.push(spec_doc);
            nest_list.push(spec_doc);
            i = i + 1;
        }
        let flat_body = self.list(flatten_list);
        let flat = self.flatten(flat_body);
        let nest_body = self.list(nest_list);
        let by = self.indent;
        let nested = self.nest(nest_body, by);
        self.try_catch(flat, nested)
    }

    /// `<...>` around the type parameters of a declaration, or nothing.
    fn push_type_params<'c>(
        &mut self,
        type_params: &Option<Loc<Vec<Loc<TypeParam>>>>,
        list: &mut Vec<DocumentIdx>,
        comments: &mut CommentMap<'c>,
    )
        requires
            old(self).ready(old(comments)),
            all_below(old(list)@, old(self).docs().len() as int),
        ensures
            optional_type_params_ok(old(self).source_bytes(), *type_params) <==> final(self).reported() == old(self).reported(),
            final(self).grows(old(self)),
            final(comments).kept_from(old(comments)),
            all_below(final(list)@, final(self).docs().len() as int),
            type_params is None ==> final(list)@ == old(list)@,
            type_params matches Some(params) ==> (final(list)@.len() == old(list)@.len() + 1
                && final(list)@.drop_last() == old(list)@ && (params.inner@.len() > 0 ==> group_doc(
                final(self).docs(),
                final(list)@.last().0 as int,
                "<"@,
                ">"@,
                params.inner@.len() as int,
                final(self).indent_width(),
            ))),
        decreases type_params, 0int,
    {
        if let Some(params) = type_params {
            let bodies = self.group_type_params(params.span.start, params.span.end, &params.inner, comments);
            let ghost before_wrap = self.docs();
            let params_doc = self.wrap_group("<", bodies, ">");
            let ghost pre = list@;
            list.push(params_doc);
            proof {
                assert(list@.drop_last() =~= pre);
                if params.inner@.len() > 0 {
                    let elements = choose|elements: Seq<DocumentIdx>|
                        elements.len() == params.inner@.len() && #[trigger] group_holds_in_order(
                            before_wrap,
                            bodies,
                            elements,
                            self.indent_width(),
                        );
                    lemma_group_holds_in_order_grows(before_wrap, self.docs(), bodies, elements, self.indent_width());
                    reveal_strlit("<");
                    reveal_strlit(">");
                    assert(wrapped(self.docs(), params_doc.0 as int, "<"@, ">"@, bodies));
                    assert(group_doc(
                        self.docs(),
                        params_doc.0 as int,
                        "<"@,
                        ">"@,
                        params.inner@.len() as int,
                        self.indent_width(),
                    ));
                }
            }
        }
    }

    #[verifier::rlimit(100)]
    #[verifier::spinoff_prover]
    pub fn build_type_declaration<'c>(&mut self, declaration: &Loc<TypeDeclaration>, comments: &mut CommentMap<'c>) -> (idx:
        DocumentIdx)
        requires
            old(self).ready(old(comments)),
        ensures
            type_declaration_ok(old(self).source_bytes(), *declaration) <==> final(self).reported() == old(self).reported(),
            built(final(self), old(self), final(comments), old(comments), idx),
            type_declaration_doc(
                old(self).source_bytes(),
                final(self).docs(),
                idx.0 as int,
                declaration.inner,
                old(self).indent_width(),
            ),
        decreases declaration, 0int,
    {
        let ghost src = self.source_bytes();
        let ghost indent = self.indent_width();
        let ghost a: int = if declaration.inner.visibility.inner is Implicit { 0 } else { 1 };
        let ghost p: int = if declaration.inner.generic_args is Some { 1 } else { 0 };
        let ghost mut keyword_idx = DocumentIdx(0);
        let ghost mut d_keyword: Seq<DocumentView> = Seq::empty();
        let ghost mut name_idx = DocumentIdx(0);
        let ghost mut d_name: Seq<DocumentView> = Seq::empty();
        let ghost mut l_name: Seq<DocumentIdx> = Seq::empty();
        let ghost mut d_params: Seq<DocumentView> = Seq::empty();
        let ghost mut l_params: Seq<DocumentIdx> = Seq::empty();
        let ghost mut mid_idx = DocumentIdx(0);
        let ghost mut d_mid: Seq<DocumentView> = Seq::empty();
        let ghost mut last_idx = DocumentIdx(0);
        let ghost mut d_last: Seq<DocumentView> = Seq::empty();
        let ghost mut d_body: Seq<DocumentView> = Seq::empty();
        let ghost mut body_bodies = GroupBodies { flat: DocumentIdx(0), broken: DocumentIdx(0), force: false };
        let visibility = self.visibility_prefix(&declaration.inner.visibility);
        let mut list: Vec<DocumentIdx> = Vec::new();
        match &declaration.inner.kind {
            TypeDeclKind::Enum(enum_decl) => {
                let attributes = self.build_attribute_list(&enum_decl.inner.attributes, true, comments);
                list.push(attributes);
                if let Some(prefix) = visibility {
                    list.push(prefix);
                }
                let keyword = self.text("enum ");
                list.push(keyword);
                proof {
                    keyword_idx = keyword;
                    d_keyword = self.docs();
                }
                let name = self.identifier(&enum_decl.inner.name);
                list.push(name);
                proof {
                    name_idx = name;
                    d_name = self.docs();
                    l_name = list@;
                }
                self.push_type_params(&declaration.inner.generic_args, &mut list, comments);
                proof {
                    d_params = self.docs();
                    l_params = list@;
                }
                let bodies = self.group_enum_variants(
                    enum_decl.inner.name.span.end,
                    declaration.span.end,
                    &enum_decl.inner.variants,
                    comments,
                );
                proof {
                    d_body = self.docs();
                    body_bodies = bodies;
                }
                let open = self.text(" {");
                list.push(open);
                proof {
                    mid_idx = open;
                    d_mid = self.docs();
                }
                list.push(bodies.broken);
                let close = self.text("}");
                list.push(close);
                proof {
                    last_idx = close;
                    d_last = self.docs();
                }
            },
            TypeDeclKind::Struct(struct_decl) => {
                let attributes = self.build_attribute_list(&struct_decl.inner.attributes, true, comments);
                list.push(attributes);
                if let Some(prefix) = visibility {
                    list.push(prefix);
                }
                let keyword = self.text("struct ");
                list.push(keyword);
                proof {
                    keyword_idx = keyword;
                    d_keyword = self.docs();
                }
                let name = self.identifier(&struct_decl.inner.name);
                list.push(name);
                proof {
                    name_idx = name;
                    d_name = self.docs();
                    l_name = list@;
                }
                self.push_type_params(&declaration.inner.generic_args, &mut list, comments);
                proof {
                    d_params = self.docs();
                    l_params = list@;
                }
                let bodies = self.build_parameter_list(&struct_decl.inner.members, comments);
                let open = self.text(" {");
                list.push(open);
                proof {
                    mid_idx = open;
                    d_mid = self.docs();
                }
                list.push(bodies.broken);
                let close = self.text("}");
                list.push(close);
                proof {
                    last_idx = close;
                    d_last = self.docs();
                }
            },
            // The alias parser eats its own `;`, so the printed one belongs
            // here in both item and statement position.
            TypeDeclKind::Alias(alias) => {
                let attributes = self.build_attribute_list(&alias.inner.attributes, true, comments);
                list.push(attributes);
                if let Some(prefix) = visibility {
                    list.push(prefix);
                }
                let keyword = self.text("type ");
                list.push(keyword);
                proof {
                    keyword_idx = keyword;
                    d_keyword = self.docs();
                }
                let name = self.identifier(&alias.inner.name);
                list.push(name);
                proof {
                    name_idx = name;
                    d_name = self.docs();
                    l_name = list@;
                }
                self.push_type_params(&declaration.inner.generic_args, &mut list, comments);
                proof {
                    d_params = self.docs();
                    l_params = list@;
                }
                let equals = self.text(" = ");
                list.push(equals);
                proof {
                    mid_idx = equals;
                    d_mid = self.docs();
                }
                let ty = self.build_type_spec(&alias.inner.type_spec, comments);
                list.push(ty);
                let semi = self.text(";");
                list.push(semi);
                proof {
                    last_idx = semi;
                    d_last = self.docs();
                }
            },
        }
        let idx = self.list(list);
        proof {
            let d = self.docs();
            let l = list@;
            assert(l_name.len() == 3 + a);
            assert(l_params.len() == 3 + a + p);
            assert(l_params.subrange(0, 3 + a) =~= l_name);
            assert(l.subrange(0, 3 + a + p) =~= l_params);
            assert(l[1 + a] == l_params.subrange(0, 3 + a)[1 + a]);
            assert(l[2 + a] == l_params.subrange(0, 3 + a)[2 + a]);
            assert(l[1 + a] == keyword_idx);
            assert(l[2 + a] == name_idx);
            assert(l[3 + a + p] == mid_idx);
            assert(l[5 + a + p] == last_idx);
            assert(d[keyword_idx.0 as int] == d_keyword[keyword_idx.0 as int]);
            assert(d[name_idx.0 as int] == d_name[name_idx.0 as int]);
            assert(d[mid_idx.0 as int] == d_mid[mid_idx.0 as int]);
            if declaration.inner.generic_args is Some {
                let params = declaration.inner.generic_args->0;
                if params.inner@.len() > 0 {
                    assert(l[3 + a] == l_params.last());
                    lemma_group_doc_grows(d_params, d, l_params.last().0 as int, "<"@, ">"@, params.inner@.len() as int, indent);
                }
            }
            if declaration.inner.kind is Enum {
                let e = declaration.inner.kind->Enum_0;
                assert(l[4 + a + p] == body_bodies.broken);
                if e.inner.variants@.len() > 0 {
                    let elements = choose|elements: Seq<DocumentIdx>|
                        elements.len() == e.inner.variants@.len() && #[trigger] group_holds_in_order(
                            d_body,
                            body_bodies,
                            elements,
                            indent,
                        );
                    lemma_group_holds_in_order_grows(d_body, d, body_bodies, elements, indent);
                    assert(broken_body_of(d, l[4 + a + p], e.inner.variants@.len() as int, indent));
                }
            }
        }
        idx
    }

    pub fn build_enum_variant<'c>(&mut self, variant: &EnumVariant, comments: &mut CommentMap<'c>) -> (idx:
        DocumentIdx)
        requires
            old(self).ready(old(comments)),
        ensures
            (variant.args matches Some(a) ==> parameter_list_ok(old(self).source_bytes(), a)) <==> final(self).reported() == old(self).reported(),
            built(final(self), old(self), final(comments), old(comments), idx),
        decreases variant, 0int,
    {
        // Attribute and doc lines are safe here only because the enum
        // always breaks its variant list.
        let attributes = self.build_attribute_list(&variant.attributes, true, comments);
        let name = self.identifier(&variant.name);
        let mut list: Vec<DocumentIdx> = vec![attributes, name];
        if let Some(parameters) = &variant.args {
            let bodies = self.build_parameter_list(parameters, comments);
            let open = self.text(" {");
            list.push(open);
            if !self.is_empty(bodies.broken) {
                let fields = if parameters_have_doc(&parameters.inner) || bodies.force {
                    bodies.broken
                } else {
                    let space = self.text(" ");
                    let flat = self.list(vec![space, bodies.flat, space]);
                    self.try_catch(flat, bodies.broken)
                };
                list.push(fields);
            }
            let close = self.text("}");
            list.push(close);
        }
        self.list(list)
    }

    pub fn build_parameter<'c>(&mut self, parameter: &Parameter, comments: &mut CommentMap<'c>) -> (idx:
        DocumentIdx)
        requires
            old(self).ready(old(comments)),
        ensures
            type_spec_ok(old(self).source_bytes(), parameter.3) <==> final(self).reported() == old(self).reported(),
            built(final(self), old(self), final(comments), old(comments), idx),
        decreases parameter, 0int,
    {
        let attributes = self.build_attribute_list(&parameter.0, false, comments);
        let mut list: Vec<DocumentIdx> = vec![attributes];
        if parameter.1.is_some() {
            let wire = self.text("wire ");
            list.push(wire);
        }
        let name_text = self.identifier_text(&parameter.2);
        let name = self.text2(name_text.as_str(), ": ");
        list.push(name);
        let ty = self.build_type_spec(&parameter.3, comments);
        list.push(ty);
        self.list(list)
    }

    /// The `self` parameter with its comments and the given separator:
    /// block comments precede the separator, line comments follow it.
    fn self_parameter_doc(
        &mut self,
        leading: &Vec<CommentToPrint>,
        line: usize,
        attributes: DocumentIdx,
        wire: bool,
        amp: bool,
        block_comments: &Vec<CommentToPrint>,
        line_comments: &Vec<CommentToPrint>,
        separator: &str,
    ) -> (idx: DocumentIdx)
        requires
            old(self).wf(),
            old(self).holds(attributes),
        ensures
            final(self).grows_quietly(old(self)),
            final(self).holds(idx),
            list_of(
                final(self).docs(),
                idx.0 as int,
                self_parameter_docs(
                    leading@,
                    line as int,
                    old(self).docs()[attributes.0 as int],
                    wire,
                    amp,
                    block_comments@,
                    line_comments@,
                    separator@,
                ),
            ),
    {
        proof {
            reveal_strlit("wire ");
            reveal_strlit("&");
            reveal_strlit("self");
            assert("wire "@ =~= seq!['w', 'i', 'r', 'e', ' ']);
            assert("&"@ =~= seq!['&']);
            assert("self"@ =~= seq!['s', 'e', 'l', 'f']);
        }
        let ghost attr = self.docs()[attributes.0 as int];
        let mut list: Vec<DocumentIdx> = Vec::new();
        proof {
            lemma_appends_nothing(list@, self.docs());
        }
        let ghost l0 = list@;
        self.emit_leading(leading, line, &mut list);
        proof {
            assert(Seq::<DocumentView>::empty() + leading_docs(leading@, line as int) =~= leading_docs(leading@, line as int));
        }
        let ghost a1 = leading_docs(leading@, line as int);
        proof {
            lemma_appends_push(list@, l0, self.docs(), a1, attributes);
        }
        list.push(attributes);
        let ghost a2 = a1.push(attr);
        let ghost a3 = a2 + (if wire {
            seq![DocumentView::Text(seq!['w', 'i', 'r', 'e', ' '])]
        } else {
            Seq::empty()
        });
        if wire {
            let ghost d = self.docs();
            let wire_doc = self.text("wire ");
            proof {
                lemma_appends_grows(list@, l0, d, self.docs(), a2);
                lemma_appends_push(list@, l0, self.docs(), a2, wire_doc);
                assert(a2.push(self.docs()[wire_doc.0 as int]) =~= a3);
            }
            list.push(wire_doc);
        } else {
            proof {
                assert(a2 =~= a3);
            }
        }
        let ghost a4 = a3 + (if amp {
            seq![DocumentView::Text(seq!['&'])]
        } else {
            Seq::empty()
        });
        if amp {
            let ghost d = self.docs();
            let amp_doc = self.text("&");
            proof {
                lemma_appends_grows(list@, l0, d, self.docs(), a3);
                lemma_appends_push(list@, l0, self.docs(), a3, amp_doc);
                assert(a3.push(self.docs()[amp_doc.0 as int]) =~= a4);
            }
            list.push(amp_doc);
        } else {
            proof {
                assert(a3 =~= a4);
            }
        }
        let ghost d5 = self.docs();
        let self_doc = self.text("self");
        proof {
            lemma_appends_grows(list@, l0, d5, self.docs(), a4);
            lemma_appends_push(list@, l0, self.docs(), a4, self_doc);
        }
        list.push(self_doc);
        let ghost a5 = a4.push(DocumentView::Text(seq!['s', 'e', 'l', 'f']));
        let ghost l5 = list@;
        let ghost d6 = self.docs();
        self.emit_trailing(block_comments, &mut list);
        proof {
            lemma_appends_grows(l5, l0, d6, self.docs(), a5);
            lemma_appends_chain(list@, l5, l0, self.docs(), a5, trailing_docs(block_comments@));
        }
        let ghost a6 = a5 + trailing_docs(block_comments@);
        let ghost d7 = self.docs();
        let separator_doc = self.text(separator);
        proof {
            lemma_appends_grows(list@, l0, d7, self.docs(), a6);
            lemma_appends_push(list@, l0, self.docs(), a6, separator_doc);
        }
        list.push(separator_doc);
        let ghost a7 = a6.push(DocumentView::Text(separator@));
        let ghost l7 = list@;
        let ghost d8 = self.docs();
        self.emit_trailing(line_comments, &mut list);
        proof {
            lemma_appends_grows(l7, l0, d8, self.docs(), a7);
            lemma_appends_chain(list@, l7, l0, self.docs(), a7, trailing_docs(line_comments@));
            assert(a7 + trailing_docs(line_comments@) =~= self_parameter_docs(
                leading@,
                line as int,
                attr,
                wire,
                amp,
                block_comments@,
                line_comments@,
                separator@,
            ));
        }
        let ghost l8 = list@;
        let ghost d9 = self.docs();
        let idx = self.list(list);
        proof {
            assert(l0 =~= Seq::<DocumentIdx>::empty());
            lemma_appends_grows(l8, l0, d9, self.docs(), a7 + trailing_docs(line_comments@));
        }
        idx
    }

    /// The flat and broken bodies of a parameter list, and whether a
    /// comment forces the broken one.
    pub fn build_parameter_list<'c>(&mut self, parameters: &Loc<ParameterList>, comments: &mut CommentMap<'c>) -> (bodies:
        GroupBodies)
        requires
            old(self).ready(old(comments)),
        ensures
            parameter_list_ok(old(self).source_bytes(), *parameters) <==> final(self).reported() == old(self).reported(),
            final(self).grows(old(self)),
            final(comments).kept_from(old(comments)),
            final(self).holds_group(bodies),
        decreases parameters, 0int,
    {
        let continues = parameters.inner.args.len() > 0;
        // `self` is not a group element, so it anchors its own comments
        // (claimed before the group sweeps its range); the attribute
        // list's span covers the keyword.
        let self_docs: Option<(DocumentIdx, DocumentIdx)> = match &parameters.inner.self_ {
            Some(self_parameter) => {
                let attributes = self.build_attribute_list(&self_parameter.0.inner, false, comments);
                let range = attributed_span(&self_parameter.0.inner, self_parameter.0.span);
                let leading = self.claim_leading(comments, range.start, false, false);
                let line = self.line_of(comments, range.start);
                let end_line = self.line_of(comments, range.end);
                let trailing = comments.take_trailing(range.end, end_line);
                let mut line_comments: Vec<CommentToPrint> = Vec::new();
                let mut block_comments: Vec<CommentToPrint> = Vec::new();
                let mut i: usize = 0;
                while i < trailing.len()
                    invariant
                        i <= trailing@.len(),
                    decreases trailing@.len() - i,
                {
                    if trailing[i].is_line {
                        line_comments.push(trailing[i]);
                    } else {
                        block_comments.push(trailing[i]);
                    }
                    i = i + 1;
                }
                let flat_separator = if continues {
                    ", "
                } else {
                    ""
                };
                let flat = self.self_parameter_doc(
                    &leading,
                    line,
                    attributes,
                    self_parameter.1,
                    self_parameter.2,
                    &block_comments,
                    &line_comments,
                    flat_separator,
                );
                let broken = self.self_parameter_doc(
                    &leading,
                    line,
                    attributes,
                    self_parameter.1,
                    self_parameter.2,
                    &block_comments,
                    &line_comments,
                    ",",
                );
                Some((flat, broken))
            },
            None => None,
        };
        let bodies = self.group_parameters(
            parameters.span.start,
            parameters.span.end,
            &parameters.inner.args,
            comments,
        );
        match self_docs {
            None => bodies,
            Some((flat_self, broken_self)) => {
                // A lone `self` still closes on its own line.
                let catch_body = if !continues && self.is_empty(bodies.broken) {
                    self.newline()
                } else {
                    bodies.broken
                };
                let flat = self.list(vec![flat_self, bodies.flat]);
                let line_break = self.newline();
                let by = self.indent;
                let nested = self.nest(broken_self, by);
                let broken = self.list(vec![line_break, nested, catch_body]);
                GroupBodies { flat, broken, force: bodies.force }
            },
        }
    }
}


impl<'code> DocumentBuilder<'code> {
    /// The signature of a unit head: `(`, the parameters and `)` with the
    /// output, in the broken layout when `broken_only`, else as a choice
    /// of the flat layouts and the broken one.
    fn signature_choice(
        &mut self,
        open: DocumentIdx,
        close: DocumentIdx,
        parameters: GroupBodies,
        output: DocumentIdx,
        broken_only: bool,
        Ghost(has_output): Ghost<bool>,
    ) -> (signature: DocumentIdx)
        requires
            old(self).wf(),
            old(self).holds_group(parameters),
            names(old(self).docs(), open, DocumentView::Text("("@)),
            names(old(self).docs(), close, DocumentView::Text(")"@)),
            old(self).holds(output),
            output_parts(old(self).docs(), old(self).docs()[output.0 as int], has_output),
        ensures
            final(self).grows_quietly(old(self)),
            final(self).holds(signature),
            signature_shape(final(self).docs(), signature.0 as int, has_output),
    {
        proof {
            assert(output_shape(self.docs(), self.docs()[output.0 as int], has_output));
        }
        let ghost d_output = self.docs();
        let broken_parts = vec![open, parameters.broken, close, output];
        let broken = self.list(broken_parts);
        proof {
            lemma_output_shape_grows(d_output, self.docs(), d_output[output.0 as int], has_output);
            assert(parenthesized(self.docs(), broken.0 as int, has_output));
        }
        let ghost d_broken = self.docs();
        let signature = if broken_only {
            broken
        } else {
            let flat_output = self.flatten(output);
            proof {
                lemma_output_shape_grows(d_output, self.docs(), d_output[output.0 as int], has_output);
                assert(self.docs()[output.0 as int] == d_output[output.0 as int]);
                if !output_parts(d_output, d_output[output.0 as int], has_output) {
                    assert(false);
                }
                assert(output_parts(self.docs(), self.docs()[output.0 as int], has_output));
                assert(output_shape(self.docs(), self.docs()[flat_output.0 as int], has_output));
            }
            let ghost d_flat_output = self.docs();
            let all_flat = self.list(vec![open, parameters.flat, close, flat_output]);
            proof {
                lemma_output_shape_grows(d_flat_output, self.docs(), d_flat_output[flat_output.0 as int], has_output);
                assert(parenthesized(self.docs(), all_flat.0 as int, has_output));
            }
            let ghost d_all_flat = self.docs();
            let flat_parameters = self.list(vec![open, parameters.flat, close, output]);
            proof {
                lemma_output_shape_grows(d_output, self.docs(), d_output[output.0 as int], has_output);
                assert(parenthesized(self.docs(), flat_parameters.0 as int, has_output));
                lemma_parenthesized_grows(d_broken, self.docs(), broken.0 as int, has_output);
                lemma_parenthesized_grows(d_all_flat, self.docs(), all_flat.0 as int, has_output);
            }
            let ghost d_flat_parameters = self.docs();
            let fallback = self.try_catch(flat_parameters, broken);
            proof {
                lemma_parenthesized_grows(d_flat_parameters, self.docs(), broken.0 as int, has_output);
                lemma_parenthesized_grows(d_flat_parameters, self.docs(), flat_parameters.0 as int, has_output);
                lemma_parenthesized_grows(d_flat_parameters, self.docs(), all_flat.0 as int, has_output);
            }
            let ghost d_fallback = self.docs();
            let choice = self.try_catch(all_flat, fallback);
            proof {
                lemma_parenthesized_grows(d_fallback, self.docs(), broken.0 as int, has_output);
                lemma_parenthesized_grows(d_fallback, self.docs(), flat_parameters.0 as int, has_output);
                lemma_parenthesized_grows(d_fallback, self.docs(), all_flat.0 as int, has_output);
                assert(self.docs()[fallback.0 as int] == d_fallback[fallback.0 as int]);
                assert(signature_shape(self.docs(), choice.0 as int, has_output));
            }
            choice
        };
        proof {
            if signature == broken {
                lemma_parenthesized_grows(d_broken, self.docs(), broken.0 as int, has_output);
            }
            assert(signature_shape(self.docs(), signature.0 as int, has_output));
        }
        signature
    }

    /// The start of a unit head: attributes, visibility, `unsafe `,
    /// `extern `, the unit kind and the name.
    fn unit_head_start<'c>(&mut self, head: &UnitHead, comments: &mut CommentMap<'c>) -> (list: Vec<DocumentIdx>)
        requires
            old(self).ready(old(comments)),
        ensures
            (visibility_ok(head.visibility) && unit_kind_ok(old(self).source_bytes(), head.unit_kind))
                <==> final(self).reported() == old(self).reported(),
            final(self).grows(old(self)),
            final(comments).kept_from(old(comments)),
            all_below(list@, final(self).docs().len() as int),
            head_start_shape(old(self).source_bytes(), final(self).docs(), list@, *head),
    {
        let attributes = self.build_attribute_list(&head.attributes, true, comments);
        let mut list: Vec<DocumentIdx> = vec![attributes];
        if let Some(visibility) = self.visibility_prefix(&head.visibility) {
            list.push(visibility);
        }
        let ghost mut unsafe_idx = DocumentIdx(0);
        let ghost mut extern_idx = DocumentIdx(0);
        let ghost a: int = list@.len() - 1;
        if head.unsafe_token {
            let unsafe_doc = self.text("unsafe ");
            list.push(unsafe_doc);
            proof {
                unsafe_idx = unsafe_doc;
            }
        }
        let ghost d_unsafe = self.docs();
        let ghost l_unsafe = list@;
        if head.extern_token {
            let extern_doc = self.text("extern ");
            list.push(extern_doc);
            proof {
                extern_idx = extern_doc;
            }
        }
        let ghost d_extern = self.docs();
        let ghost l_extern = list@;
        let kind = self.unit_kind_doc(&head.unit_kind, false, comments);
        list.push(kind);
        let ghost d_kind = self.docs();
        let name_text = self.identifier_text(&head.name);
        let name = self.text2(" ", name_text.as_str());
        list.push(name);
        proof {
            let l = list@;
            lemma_unit_kind_shape_grows(d_kind, self.docs(), kind.0 as int, head.unit_kind.inner, false);
            let u: int = if head.unsafe_token { 1 } else { 0 };
            if head.unsafe_token {
                assert(l_unsafe[1 + a] == unsafe_idx);
                assert(l_extern.subrange(0, l_unsafe.len() as int) =~= l_unsafe);
                assert(l.subrange(0, l_unsafe.len() as int) =~= l_unsafe);
                assert(l[1 + a] == l.subrange(0, l_unsafe.len() as int)[1 + a]);
                assert(self.docs()[unsafe_idx.0 as int] == d_unsafe[unsafe_idx.0 as int]);
            }
            if head.extern_token {
                assert(l_extern[1 + a + u] == extern_idx);
                assert(l.subrange(0, l_extern.len() as int) =~= l_extern);
                assert(l[1 + a + u] == l.subrange(0, l_extern.len() as int)[1 + a + u]);
                assert(self.docs()[extern_idx.0 as int] == d_extern[extern_idx.0 as int]);
            }
        }
        list
    }

    #[verifier::rlimit(100)]
    #[verifier::spinoff_prover]
    pub fn build_unit_head<'c>(&mut self, head: &UnitHead, comments: &mut CommentMap<'c>) -> (idx:
        DocumentIdx)
        requires
            old(self).ready(old(comments)),
        ensures
            unit_head_ok(old(self).source_bytes(), *head) <==> final(self).reported() == old(self).reported(),
            built(final(self), old(self), final(comments), old(comments), idx),
            unit_head_doc(old(self).source_bytes(), final(self).docs(), idx.0 as int, *head, old(self).indent_width()),
    {
        let ghost src = self.source_bytes();
        let mut list = self.unit_head_start(head, comments);
        let ghost d_name = self.docs();
        let ghost before_params = list@;
        self.push_type_params(&head.type_params, &mut list, comments);
        let ghost d_params = self.docs();
        let ghost after_params = list@;
        let parameters = self.build_parameter_list(&head.inputs, comments);
        let open = self.text("(");
        let close = self.text(")");
        let output = match &head.output_type {
            Some(output_type) => {
                let arrow = self.text(" -> ");
                let ty = self.build_type_spec(output_type, comments);
                let parts = vec![arrow, ty];
                proof {
                    assert(text_at(self.docs(), parts@, 0, " -> "@));
                }
                self.list(parts)
            },
            None => self.empty(),
        };
        let ghost has_output = head.output_type is Some;
        proof {
            assert(output_parts(self.docs(), self.docs()[output.0 as int], has_output));
        }
        // A `///` doc or a comment renders as a line comment, so a flat
        // layout would swallow everything after it on the line.
        let broken_only = parameters_have_doc(&head.inputs.inner) || parameters.force;
        let signature = self.signature_choice(open, close, parameters, output, broken_only, Ghost(has_output));
        list.push(signature);
        let ghost d_signature = self.docs();
        let where_doc = self.build_where_clauses(&head.where_clauses, comments);
        list.push(where_doc);
        let idx = self.list(list);
        proof {
            let d = self.docs();
            let l = list@;
            let a: int = if head.visibility.inner is Implicit { 0 } else { 1 };
            let u: int = if head.unsafe_token { 1 } else { 0 };
            let e: int = if head.extern_token { 1 } else { 0 };
            let t: int = if head.type_params is Some { 1 } else { 0 };
            let v = a + u + e;
            assert(before_params.len() == 3 + v);
            assert(after_params.len() == 3 + v + t);
            assert(l.len() == 5 + v + t);
            assert(after_params.subrange(0, 3 + v) =~= before_params);
            assert(l.subrange(0, 3 + v + t) =~= after_params);
            assert(l.subrange(0, 3 + v) =~= before_params);
            lemma_head_start_grows(src, d_name, d, before_params, *head);
            lemma_head_start_prefix(src, d, before_params, l, *head);
            assert(l[1 + v] == before_params[1 + v]);
            if head.type_params is Some {
                let params = head.type_params->0;
                if params.inner@.len() > 0 {
                    assert(l[3 + v] == after_params.last());
                    lemma_group_doc_grows(d_params, d, after_params.last().0 as int, "<"@, ">"@, params.inner@.len() as int, old(self).indent_width());
                }
            }
            assert(l[3 + v + t] == signature);
            lemma_signature_shape_grows(d_signature, d, signature.0 as int, head.output_type is Some);
        }
        idx
    }

    pub fn build_unit<'c>(&mut self, unit: &Loc<Unit>, comments: &mut CommentMap<'c>) -> (idx:
        DocumentIdx)
        requires
            old(self).ready(old(comments)),
        ensures
            unit_ok(old(self).source_bytes(), *unit) <==> final(self).reported() == old(self).reported(),
            built(final(self), old(self), final(comments), old(comments), idx),
    {
        let head = self.build_unit_head(&unit.inner.head, comments);
        let body = match &unit.inner.body {
            Some(body) => {
                let space = self.text(" ");
                let body_doc = self.build_expression(body, comments);
                self.list(vec![space, body_doc])
            },
            None => self.text(";"),
        };
        self.list(vec![head, body])
    }

    /// Separators, blank-line gap, and leading comments before an impl or
    /// trait member starting at `start`.
    fn begin_member<'c>(
        &mut self,
        start: usize,
        prev_end_line: Option<usize>,
        comments: &mut CommentMap<'c>,
        member_list: &mut Vec<DocumentIdx>,
    )
        requires
            old(self).ready(old(comments)),
            all_below(old(member_list)@, old(self).docs().len() as int),
        ensures
            final(self).grows_quietly(old(self)),
            final(comments).kept_from(old(comments)),
            final(comments).claimed_from(
                old(comments),
                |k: int|
                    old(comments).leading_admits(
                        clamped(old(self).source_bytes().len() as int, start as int),
                        false,
                        false,
                        k,
                    ),
                leading_claim(old(comments), old(self).source_bytes().len() as int, start as int),
            ),
            all_below(final(member_list)@, final(self).docs().len() as int),
            appends(
                final(member_list)@,
                old(member_list)@,
                final(self).docs(),
                member_start_docs(
                    leading_claim(old(comments), old(self).source_bytes().len() as int, start as int),
                    prev_end_line,
                    old(comments).layout().line_of(start as int),
                ),
            ),
    {
        let leading = self.claim_leading(comments, start, false, false);
        proof {
            assert(leading@ =~= leading_claim(old(comments), self.source_bytes().len() as int, start as int));
            lemma_appends_nothing(member_list@, self.docs());
        }
        let member_line = self.line_of(comments, start);
        let effective_start = if leading.len() > 0 {
            leading[0].start_line
        } else {
            member_line
        };
        let ghost l0 = member_list@;
        let ghost head: Seq<DocumentView> = if prev_end_line is Some {
            seq![DocumentView::Newline] + gap_before(prev_end_line, effective_start as int)
        } else {
            Seq::empty()
        };
        if let Some(prev) = prev_end_line {
            let line_break = self.newline();
            proof {
                lemma_appends_push(member_list@, l0, self.docs(), Seq::empty(), line_break);
            }
            member_list.push(line_break);
            let ghost h1 = seq![DocumentView::Newline];
            proof {
                assert(Seq::<DocumentView>::empty().push(DocumentView::Newline) =~= h1);
            }
            if prev < effective_start && effective_start - prev > 1 {
                let ghost d = self.docs();
                let gap = self.newline();
                proof {
                    lemma_appends_grows(member_list@, l0, d, self.docs(), h1);
                    lemma_appends_push(member_list@, l0, self.docs(), h1, gap);
                    assert(h1.push(DocumentView::Newline) =~= head);
                }
                member_list.push(gap);
            } else {
                proof {
                    assert(h1 =~= head);
                }
            }
        }
        let ghost l1 = member_list@;
        let ghost d1 = self.docs();
        self.emit_leading(&leading, member_line, member_list);
        proof {
            lemma_appends_grows(l1, l0, d1, self.docs(), head);
            lemma_appends_chain(member_list@, l1, l0, self.docs(), head, leading_docs(leading@, member_line as int));
        }
    }

    /// Trailing comments of a member ending at `end`; returns its
    /// effective end line.
    fn end_member<'c>(&mut self, end: usize, comments: &mut CommentMap<'c>, member_list: &mut Vec<DocumentIdx>) -> (line:
        usize)
        requires
            old(self).ready(old(comments)),
            all_below(old(member_list)@, old(self).docs().len() as int),
        ensures
            final(self).grows_quietly(old(self)),
            final(comments).kept_from(old(comments)),
            final(comments).claimed_from(
                old(comments),
                |k: int|
                    old(comments).trailing_admits(
                        end as int,
                        old(comments).layout().line_of(end as int),
                        k,
                    ),
                trailing_claim(old(comments), end as int),
            ),
            all_below(final(member_list)@, final(self).docs().len() as int),
            appends(
                final(member_list)@,
                old(member_list)@,
                final(self).docs(),
                trailing_docs(trailing_claim(old(comments), end as int)),
            ),
            line == if trailing_claim(old(comments), end as int).len() > 0 {
                trailing_claim(old(comments), end as int).last().end_line as int
            } else {
                old(comments).layout().line_of(end as int)
            },
    {
        let end_line = self.line_of(comments, end);
        let trailing = comments.take_trailing(end, end_line);
        proof {
            assert(trailing@ =~= trailing_claim(old(comments), end as int));
        }
        self.emit_trailing(&trailing, member_list);
        if trailing.len() > 0 {
            trailing[trailing.len() - 1].end_line
        } else {
            end_line
        }
    }

    /// Appends an impl or trait body between its braces, or nothing when
    /// it has no members and no comments (`{}`).
    fn push_body(&mut self, member_list: Vec<DocumentIdx>, list: &mut Vec<DocumentIdx>)
        requires
            old(self).wf(),
            all_below(member_list@, old(self).docs().len() as int),
            all_below(old(list)@, old(self).docs().len() as int),
        ensures
            final(self).grows_quietly(old(self)),
            all_below(final(list)@, final(self).docs().len() as int),
            member_list@.len() == 0 ==> final(list)@ == old(list)@,
            member_list@.len() > 0 ==> ({
                let nested = final(list)@[old(list)@.len() + 1int];
                &&& appends(
                    final(list)@,
                    old(list)@,
                    final(self).docs(),
                    seq![
                        DocumentView::Newline,
                        final(self).docs()[nested.0 as int],
                        DocumentView::Newline,
                    ],
                )
                &&& final(self).docs()[nested.0 as int] matches DocumentView::Nest(members, by) && by
                    == final(self).indent_width() && members.0 < final(self).docs().len()
                    && final(self).docs()[members.0 as int] == DocumentView::List(member_list@)
            }),
    {
        if member_list.len() == 0 {
            return;
        }
        let ghost l0 = list@;
        let before = self.newline();
        list.push(before);
        let members = self.list(member_list);
        let by = self.indent;
        let nested = self.nest(members, by);
        list.push(nested);
        let after = self.newline();
        list.push(after);
        proof {
            let added = seq![DocumentView::Newline, self.docs()[nested.0 as int], DocumentView::Newline];
            assert forall|j: int| l0.len() <= j < list@.len() implies (#[trigger] list@[j]).0 < self.docs().len()
                && self.docs()[list@[j].0 as int] == added[j - l0.len()] by {
                if j == l0.len() {
                    assert(list@[j] == before);
                } else if j == l0.len() + 1 {
                    assert(list@[j] == nested);
                } else {
                    assert(list@[j] == after);
                }
            }
            assert forall|j: int| 0 <= j < l0.len() implies #[trigger] list@[j] == l0[j] by {}
            assert(list@[l0.len() + 1int] == nested);
        }
    }

    pub fn build_impl_block<'c>(&mut self, impl_block: &Loc<ImplBlock>, comments: &mut CommentMap<'c>) -> (idx:
        DocumentIdx)
        requires
            old(self).ready(old(comments)),
        ensures
            item_ok(old(self).source_bytes(), Item::ImplBlock(*impl_block)) <==> final(self).reported() == old(self).reported(),
            built(final(self), old(self), final(comments), old(comments), idx),
    {
        let impl_doc = self.text("impl");
        let mut list: Vec<DocumentIdx> = vec![impl_doc];
        self.push_type_params(&impl_block.inner.type_params, &mut list, comments);
        let space = self.text(" ");
        list.push(space);
        if let Some(impl_trait) = &impl_block.inner.trait_ {
            let trait_doc = self.build_trait_spec(impl_trait, comments);
            list.push(trait_doc);
            let for_doc = self.text(" for ");
            list.push(for_doc);
        }
        let target = self.build_type_spec(&impl_block.inner.target, comments);
        list.push(target);
        let where_doc = self.build_where_clauses(&impl_block.inner.where_clauses, comments);
        list.push(where_doc);
        let open = self.text(" {");
        list.push(open);
        let mut member_list: Vec<DocumentIdx> = Vec::new();
        let mut prev_end_line: Option<usize> = None;
        let mut last_end_byte: usize = impl_block.inner.target.span.end;
        let mut i: usize = 0;
        while i < impl_block.inner.assoc_types.len()
            invariant
                (self.reported() == old(self).reported()) <==> (optional_type_params_ok(old(self).source_bytes(), impl_block.inner.type_params) && (impl_block.inner.trait_ matches Some(t) ==> trait_spec_ok(old(self).source_bytes(), t)) && type_spec_ok(old(self).source_bytes(), impl_block.inner.target) && where_clauses_ok(old(self).source_bytes(), impl_block.inner.where_clauses@, impl_block.inner.where_clauses@.len() as int) && type_declarations_ok(old(self).source_bytes(), impl_block.inner.assoc_types@, i as int)),
                i <= impl_block.inner.assoc_types@.len(),
                self.grows(old(self)),
                comments.kept_from(old(comments)),
                self.ready(comments),
                all_below(list@, self.docs().len() as int),
                all_below(member_list@, self.docs().len() as int),
            decreases impl_block.inner.assoc_types@.len() - i,
        {
            let assoc_type = &impl_block.inner.assoc_types[i];
            let range = attributed_span(type_declaration_attributes(&assoc_type.inner), assoc_type.span);
            self.begin_member(range.start, prev_end_line, comments, &mut member_list);
            let member = self.build_type_declaration(assoc_type, comments);
            member_list.push(member);
            let end_line = self.end_member(range.end, comments, &mut member_list);
            prev_end_line = Some(end_line);
            if range.end > last_end_byte {
                last_end_byte = range.end;
            }
            i = i + 1;
        }
        let mut i: usize = 0;
        while i < impl_block.inner.units.len()
            invariant
                (self.reported() == old(self).reported()) <==> (optional_type_params_ok(old(self).source_bytes(), impl_block.inner.type_params) && (impl_block.inner.trait_ matches Some(t) ==> trait_spec_ok(old(self).source_bytes(), t)) && type_spec_ok(old(self).source_bytes(), impl_block.inner.target) && where_clauses_ok(old(self).source_bytes(), impl_block.inner.where_clauses@, impl_block.inner.where_clauses@.len() as int) && type_declarations_ok(old(self).source_bytes(), impl_block.inner.assoc_types@, impl_block.inner.assoc_types@.len() as int) && units_ok(old(self).source_bytes(), impl_block.inner.units@, i as int)),
                i <= impl_block.inner.units@.len(),
                self.grows(old(self)),
                comments.kept_from(old(comments)),
                self.ready(comments),
                all_below(list@, self.docs().len() as int),
                all_below(member_list@, self.docs().len() as int),
            decreases impl_block.inner.units@.len() - i,
        {
            let unit = &impl_block.inner.units[i];
            let range = attributed_span(&unit.inner.head.attributes, unit.span);
            self.begin_member(range.start, prev_end_line, comments, &mut member_list);
            let member = self.build_unit(unit, comments);
            member_list.push(member);
            let end_line = self.end_member(range.end, comments, &mut member_list);
            prev_end_line = Some(end_line);
            if range.end > last_end_byte {
                last_end_byte = range.end;
            }
            i = i + 1;
        }
        let rest = self.claim_between(comments, last_end_byte, impl_block.span.end);
        self.emit_scope_trailing(&rest, prev_end_line, &mut member_list);
        self.push_body(member_list, &mut list);
        let close = self.text("}");
        list.push(close);
        self.list(list)
    }

    #[verifier::rlimit(100)]
    #[verifier::spinoff_prover]
    pub fn build_trait_def<'c>(&mut self, trait_def: &Loc<TraitDef>, comments: &mut CommentMap<'c>) -> (idx:
        DocumentIdx)
        requires
            old(self).ready(old(comments)),
        ensures
            item_ok(old(self).source_bytes(), Item::TraitDef(*trait_def)) <==> final(self).reported() == old(self).reported(),
            built(final(self), old(self), final(comments), old(comments), idx),
            trait_def_doc(old(self).source_bytes(), final(self).docs(), idx.0 as int, trait_def.inner, old(self).indent_width()),
    {
        let ghost src = self.source_bytes();
        let ghost indent = self.indent_width();
        let ghost t = trait_def.inner;
        let attributes = self.build_attribute_list(&trait_def.inner.attributes, true, comments);
        let mut list: Vec<DocumentIdx> = vec![attributes];
        if let Some(visibility) = self.visibility_prefix(&trait_def.inner.visibility) {
            list.push(visibility);
        }
        let name_text = self.identifier_text(&trait_def.inner.name);
        let head = self.text2("trait ", name_text.as_str());
        list.push(head);
        let ghost d_head = self.docs();
        let ghost l_head = list@;
        self.push_type_params(&trait_def.inner.type_params, &mut list, comments);
        proof {
            let a: int = if t.visibility.inner is Implicit { 0 } else { 1 };
            assert(l_head.len() == 2 + a);
            assert(list@.subrange(0, l_head.len() as int) =~= l_head);
            assert(list@[1 + a] == list@.subrange(0, l_head.len() as int)[1 + a]);
            assert(self.docs()[head.0 as int] == d_head[head.0 as int]);
            assert(trait_head_upto(src, self.docs(), list@, t, indent, 0));
        }
        let mut i: usize = 0;
        while i < trait_def.inner.subtraits.len()
            invariant
                trait_head_upto(src, self.docs(), list@, t, indent, i as int),
                list@.len() == trait_sep_base(t) + 2 * i,
                src == old(self).source_bytes(),
                indent == old(self).indent_width(),
                t == trait_def.inner,
                (self.reported() == old(self).reported()) <==> (visibility_ok(trait_def.inner.visibility) && optional_type_params_ok(old(self).source_bytes(), trait_def.inner.type_params) && trait_specs_ok(old(self).source_bytes(), trait_def.inner.subtraits@, i as int)),
                i <= trait_def.inner.subtraits@.len(),
                self.grows(old(self)),
                comments.kept_from(old(comments)),
                self.ready(comments),
                all_below(list@, self.docs().len() as int),
            decreases trait_def.inner.subtraits@.len() - i,
        {
            let ghost d0 = self.docs();
            let ghost l0 = list@;
            let separator = if i == 0 {
                self.text(": ")
            } else {
                self.text(" + ")
            };
            list.push(separator);
            let ghost d1 = self.docs();
            let subtrait = self.build_trait_spec(&trait_def.inner.subtraits[i], comments);
            list.push(subtrait);
            proof {
                lemma_trait_head_grows(src, d0, self.docs(), l0, t, indent, i as int);
                lemma_trait_head_prefix(src, self.docs(), l0, list@, t, indent, i as int);
                assert(self.docs()[separator.0 as int] == d1[separator.0 as int]);
                assert(list@[l0.len() as int] == separator);
                assert(sep_at(self.docs(), list@, trait_sep_base(t), i as int));
                assert forall|k: int| 0 <= k < i + 1 implies #[trigger] sep_at(self.docs(), list@, trait_sep_base(t), k) by {}
            }
            i = i + 1;
        }
        let ghost d_subtraits = self.docs();
        let ghost l_subtraits = list@;
        let where_doc = self.build_where_clauses(&trait_def.inner.where_clauses, comments);
        list.push(where_doc);
        let open = self.text(" {");
        list.push(open);
        proof {
            lemma_trait_head_grows(src, d_subtraits, self.docs(), l_subtraits, t, indent, t.subtraits@.len() as int);
            lemma_trait_head_prefix(src, self.docs(), l_subtraits, list@, t, indent, t.subtraits@.len() as int);
        }
        let ghost d_open = self.docs();
        let ghost l_open = list@;
        let mut member_list: Vec<DocumentIdx> = Vec::new();
        let mut prev_end_line: Option<usize> = None;
        let mut last_end_byte: usize = trait_def.inner.name.span.end;
        // The tree stores associated types and methods separately, so
        // source interleaving is lost; associated types print first.
        let mut i: usize = 0;
        while i < trait_def.inner.assoc_types.len()
            invariant
                (self.reported() == old(self).reported()) <==> (visibility_ok(trait_def.inner.visibility) && optional_type_params_ok(old(self).source_bytes(), trait_def.inner.type_params) && trait_specs_ok(old(self).source_bytes(), trait_def.inner.subtraits@, trait_def.inner.subtraits@.len() as int) && where_clauses_ok(old(self).source_bytes(), trait_def.inner.where_clauses@, trait_def.inner.where_clauses@.len() as int) && assoc_types_ok(old(self).source_bytes(), trait_def.inner.assoc_types@, i as int)),
                i <= trait_def.inner.assoc_types@.len(),
                self.grows(old(self)),
                comments.kept_from(old(comments)),
                self.ready(comments),
                all_below(list@, self.docs().len() as int),
                all_below(member_list@, self.docs().len() as int),
                keeps(d_open, self.docs()),
            decreases trait_def.inner.assoc_types@.len() - i,
        {
            let assoc_type = &trait_def.inner.assoc_types[i];
            let range = assoc_type.span;
            self.begin_member(range.start, prev_end_line, comments, &mut member_list);
            let assoc_name = self.identifier_text(&assoc_type.inner.name);
            let type_doc = self.text2("type ", assoc_name.as_str());
            member_list.push(type_doc);
            self.push_type_params(&assoc_type.inner.type_params, &mut member_list, comments);
            let semi = self.text(";");
            member_list.push(semi);
            let end_line = self.end_member(range.end, comments, &mut member_list);
            prev_end_line = Some(end_line);
            if range.end > last_end_byte {
                last_end_byte = range.end;
            }
            i = i + 1;
        }
        let mut i: usize = 0;
        while i < trait_def.inner.methods.len()
            invariant
                (self.reported() == old(self).reported()) <==> (visibility_ok(trait_def.inner.visibility) && optional_type_params_ok(old(self).source_bytes(), trait_def.inner.type_params) && trait_specs_ok(old(self).source_bytes(), trait_def.inner.subtraits@, trait_def.inner.subtraits@.len() as int) && where_clauses_ok(old(self).source_bytes(), trait_def.inner.where_clauses@, trait_def.inner.where_clauses@.len() as int) && assoc_types_ok(old(self).source_bytes(), trait_def.inner.assoc_types@, trait_def.inner.assoc_types@.len() as int) && unit_heads_ok(old(self).source_bytes(), trait_def.inner.methods@, i as int)),
                i <= trait_def.inner.methods@.len(),
                self.grows(old(self)),
                comments.kept_from(old(comments)),
                self.ready(comments),
                all_below(list@, self.docs().len() as int),
                all_below(member_list@, self.docs().len() as int),
                keeps(d_open, self.docs()),
            decreases trait_def.inner.methods@.len() - i,
        {
            let method = &trait_def.inner.methods[i];
            let range = attributed_span(&method.inner.attributes, method.span);
            self.begin_member(range.start, prev_end_line, comments, &mut member_list);
            let head = self.build_unit_head(&method.inner, comments);
            member_list.push(head);
            let semi = self.text(";");
            member_list.push(semi);
            let end_line = self.end_member(range.end, comments, &mut member_list);
            prev_end_line = Some(end_line);
            if range.end > last_end_byte {
                last_end_byte = range.end;
            }
            i = i + 1;
        }
        let rest = self.claim_between(comments, last_end_byte, trait_def.span.end);
        self.emit_scope_trailing(&rest, prev_end_line, &mut member_list);
        self.push_body(member_list, &mut list);
        let close = self.text("}");
        list.push(close);
        let idx = self.list(list);
        proof {
            let n = t.subtraits@.len() as int;
            let l = list@;
            assert(l.len() >= l_open.len() + 1);
            assert forall|k: int| 0 <= k < l_open.len() implies #[trigger] l[k] == l_open[k] by {}
            lemma_trait_head_grows(src, d_open, self.docs(), l_open, t, indent, n);
            lemma_trait_head_prefix(src, self.docs(), l_open, l, t, indent, n);
            assert(l[l_open.len() - 1] == open);
            assert(self.docs()[open.0 as int] == d_open[open.0 as int]);
        }
        idx
    }

    /// Whether two path segments print alike.
    fn same_segment(&self, a: &PathSegment, b: &PathSegment) -> (same: bool)
        requires
            self.wf(),
        ensures
            same == (segment_spelling(self.source_bytes(), *a) == segment_spelling(
                self.source_bytes(),
                *b,
            )),
    {
        let a_text = self.segment_text(a);
        let b_text = self.segment_text(b);
        a_text.eq(&b_text)
    }

    #[verifier::rlimit(100)]
    #[verifier::spinoff_prover]
    pub fn build_use<'c>(
        &mut self,
        attributes: &AttributeList,
        use_statements: &Loc<Vec<UseStatement>>,
        comments: &mut CommentMap<'c>,
    ) -> (idx: DocumentIdx)
        requires
            old(self).ready(old(comments)),
        ensures
            use_ok(*use_statements) <==> final(self).reported() == old(self).reported(),
            built(final(self), old(self), final(comments), old(comments), idx),
            use_ok(*use_statements) ==> use_doc(
                old(self).source_bytes(),
                final(self).docs(),
                idx.0 as int,
                use_statements.inner@,
                old(self).indent_width(),
            ),
    {
        let ghost src = self.source_bytes();
        let statements = &use_statements.inner;
        if statements.len() == 1 {
            let statement = &statements[0];
            let attributes_doc = self.build_attribute_list(attributes, true, comments);
            let mut line: Vec<DocumentIdx> = vec![attributes_doc];
            if let Some(visibility) = self.visibility_prefix(&statement.visibility) {
                line.push(visibility);
            }
            let ghost a: int = line@.len() - 1;
            let use_keyword = self.text("use ");
            line.push(use_keyword);
            let path = self.build_path(&statement.path);
            line.push(path);
            let ghost mut alias_idx = DocumentIdx(0);
            if let Some(alias) = &statement.alias {
                let alias_text = self.identifier_text(alias);
                let alias_doc = self.text2(" as ", alias_text.as_str());
                line.push(alias_doc);
                proof {
                    alias_idx = alias_doc;
                }
            }
            let ghost d_alias = self.docs();
            let semi = self.text(";");
            line.push(semi);
            let idx = self.list(line);
            proof {
                let l = line@;
                assert(l[1 + a] == use_keyword);
                assert(l[2 + a] == path);
                if statement.alias is Some {
                    assert(l[3 + a] == alias_idx);
                    assert(self.docs()[alias_idx.0 as int] == d_alias[alias_idx.0 as int]);
                }
            }
            return idx;
        }
        // `use a::{};` has no leaf, so the tree keeps nothing of its path.
        if statements.len() == 0 {
            return self.unsupported(use_statements.span, "an empty `use` list");
        }
        // The parser flattens the brace tree of `use a::{b, c::d};` into
        // one statement per leaf; reconstruct one-level braces over the
        // longest common path prefix, capped so every statement keeps at
        // least one segment. Visibility is uniform across the group.
        let first = &statements[0];
        let first_segments = &first.path.inner.0;
        let mut prefix_len: usize = first_segments.len();
        let mut i: usize = 0;
        while i < statements.len()
            invariant
                i <= statements@.len(),
                prefix_len <= first_segments@.len(),
                *first_segments == statements@[0].path.inner.0,
            decreases statements@.len() - i,
        {
            let segments = &statements[i].path.inner.0;
            let keep: usize = if segments.len() > 0 {
                segments.len() - 1
            } else {
                0
            };
            if keep < prefix_len {
                prefix_len = keep;
            }
            i = i + 1;
        }
        let mut i: usize = 1;
        while i < statements.len()
            invariant
                1 <= i <= statements@.len(),
                self.wf(),
                prefix_len <= first_segments@.len(),
            decreases statements@.len() - i,
        {
            let segments = &statements[i].path.inner.0;
            let mut common: usize = 0;
            while common < prefix_len && common < segments.len() && self.same_segment(
                &first_segments[common],
                &segments[common],
            )
                invariant
                    self.wf(),
                    common <= prefix_len <= first_segments@.len(),
                    common <= segments@.len(),
                decreases prefix_len - common,
            {
                common = common + 1;
            }
            if common < prefix_len {
                prefix_len = common;
            }
            i = i + 1;
        }
        let attributes_doc = self.build_attribute_list(attributes, true, comments);
        let mut line: Vec<DocumentIdx> = vec![attributes_doc];
        if let Some(visibility) = self.visibility_prefix(&first.visibility) {
            line.push(visibility);
        }
        let ghost a: int = line@.len() - 1;
        let use_keyword = self.text("use ");
        line.push(use_keyword);
        let ghost d_use = self.docs();
        let ghost l_use = line@;
        if prefix_len > 0 {
            let prefix = self.path_text(first_segments, 0, prefix_len);
            let prefix_doc = self.text2(prefix.as_str(), "::");
            line.push(prefix_doc);
        }
        let ghost l_prefix = line@;
        let ghost d_prefix = self.docs();
        let mut entries: Vec<Prebuilt> = Vec::new();
        let ghost r_entries = self.reported();
        let mut i: usize = 0;
        while i < statements.len()
            invariant
                self.reported() == r_entries,
                (r_entries == old(self).reported()) <==> visibility_ok(statements@[0].visibility),
                statements@.len() > 1,
                i <= statements@.len(),
                self.grows(old(self)),
                comments.kept_from(old(comments)),
                self.ready(comments),
                all_below(line@, self.docs().len() as int),
                forall|k: int|
                    0 <= k < entries@.len() ==> (#[trigger] entries@[k]).doc.0 < self.docs().len(),
                entries@.len() == i,
                keeps(d_use, self.docs()),
                line@.len() >= l_use.len(),
                forall|k: int| 0 <= k < l_use.len() ==> #[trigger] line@[k] == l_use[k],
                self.indent_width() == old(self).indent_width(),
                line@ == l_prefix,
                keeps(d_prefix, self.docs()),
                src == old(self).source_bytes(),
                forall|k: int|
                    0 <= k < i ==> #[trigger] names(
                        self.docs(),
                        entries@[k].doc,
                        DocumentView::Text(use_entry_text(src, statements@[k], prefix_len as int)),
                    ),
            decreases statements@.len() - i,
        {
            let statement = &statements[i];
            let segments = &statement.path.inner.0;
            let from = if prefix_len <= segments.len() {
                prefix_len
            } else {
                segments.len()
            };
            let mut entry = self.path_text(segments, from, segments.len());
            let ghost path = entry@;
            proof {
                assert(path == path_spelling(src, segments@, from as int, segments@.len() as int));
            }
            let end = match &statement.alias {
                Some(alias) => {
                    let alias_text = self.identifier_text(alias);
                    entry.append(" as ");
                    entry.append(alias_text.as_str());
                    proof {
                        assert(entry@ == path + " as "@ + identifier_spelling(src, *alias));
                    }
                    alias.span.end
                },
                None => statement.path.span.end,
            };
            let ghost d_before = self.docs();
            let ghost text_val = entry@;
            proof {
                let pl = prefix_len as int;
                let segs = statement.path.inner.0@;
                let f: int = if pl <= segs.len() { pl } else { segs.len() as int };
                assert(f == from as int);
                assert(path == path_spelling(src, segs, f, segs.len() as int));
                if statement.alias is Some {
                    assert(text_val == path + " as "@ + identifier_spelling(src, statement.alias->0));
                } else {
                    assert(text_val == path);
                }
                assert(text_val == use_entry_text(src, *statement, pl));
            }
            let doc = self.text_owned(entry);
            proof {
                assert forall|k: int| 0 <= k < i implies #[trigger] names(
                    self.docs(),
                    entries@[k].doc,
                    DocumentView::Text(use_entry_text(src, statements@[k], prefix_len as int)),
                ) by {
                    assert(names(d_before, entries@[k].doc, DocumentView::Text(use_entry_text(src, statements@[k], prefix_len as int))));
                    assert(self.docs()[entries@[k].doc.0 as int] == d_before[entries@[k].doc.0 as int]);
                }
                assert(names(self.docs(), doc, DocumentView::Text(use_entry_text(src, statements@[i as int], prefix_len as int))));
            }
            let ghost e0 = entries@;
            entries.push(Prebuilt { doc, start: statement.path.span.start, end });
            proof {
                assert forall|k: int| 0 <= k < i + 1 implies #[trigger] names(
                    self.docs(),
                    entries@[k].doc,
                    DocumentView::Text(use_entry_text(src, statements@[k], prefix_len as int)),
                ) by {
                    if k < i {
                        assert(entries@[k] == e0[k]);
                    }
                }
            }
            i = i + 1;
        }
        let ghost d_entries = self.docs();
        let bodies = self.group_raw_prebuilt(use_statements.span.start, use_statements.span.end, &entries, comments);
        let ghost before_wrap = self.docs();
        let group = self.wrap_group("{", bodies, "}");
        proof {
            let elements = Seq::new(entries@.len(), |k: int| entries@[k].doc);
            lemma_group_holds_in_order_grows(before_wrap, self.docs(), bodies, elements, self.indent_width());
            reveal_strlit("{");
            reveal_strlit("}");
            assert(wrapped(self.docs(), group.0 as int, "{"@, "}"@, bodies));
            assert(group_doc(self.docs(), group.0 as int, "{"@, "}"@, statements@.len() as int, self.indent_width()));
        }
        let ghost d_group = self.docs();
        proof {
            let elements = Seq::new(entries@.len(), |k: int| entries@[k].doc);
            assert forall|k: int| 0 <= k < statements@.len() implies #[trigger] names(
                self.docs(),
                elements[k],
                DocumentView::Text(use_entry_text(src, statements@[k], prefix_len as int)),
            ) by {
                assert(names(d_entries, entries@[k].doc, DocumentView::Text(use_entry_text(src, statements@[k], prefix_len as int))));
                assert(self.docs()[entries@[k].doc.0 as int] == d_entries[entries@[k].doc.0 as int]);
            }
            assert(use_entries(src, self.docs(), elements, statements@, prefix_len as int));
            assert(use_group(src, self.docs(), group.0 as int, statements@, prefix_len as int, self.indent_width()));
        }
        line.push(group);
        let semi = self.text(";");
        line.push(semi);
        let idx = self.list(line);
        proof {
            let l = line@;
            lemma_group_doc_grows(d_group, self.docs(), group.0 as int, "{"@, "}"@, statements@.len() as int, self.indent_width());
            assert(l[l.len() - 2] == group);
            assert(l[1 + a] == l_use[1 + a]);
            assert(self.docs()[use_keyword.0 as int] == d_use[use_keyword.0 as int]);
            let pl = prefix_len as int;
            lemma_use_group_grows(src, d_group, self.docs(), group.0 as int, statements@, pl, self.indent_width());
            if prefix_len > 0 {
                assert(l[2 + a] == l_prefix[2 + a]);
                assert(self.docs()[l_prefix[2 + a].0 as int] == d_prefix[l_prefix[2 + a].0 as int]);
            }
            assert(use_grouped(src, self.docs(), l, a, statements@, pl, self.indent_width()));
            let a2: int = use_visibility_count(use_statements.inner@);
            assert(a2 == a);
            assert(use_grouped(
                old(self).source_bytes(),
                self.docs(),
                l,
                a2,
                use_statements.inner@,
                pl,
                old(self).indent_width(),
            ));
            assert(exists|q: int|
                #[trigger] use_grouped(
                    old(self).source_bytes(),
                    self.docs(),
                    l,
                    a2,
                    use_statements.inner@,
                    q,
                    old(self).indent_width(),
                ));
            assert(self.docs()[idx.0 as int] == DocumentView::List(l));
            assert(text_at(self.docs(), l, 1 + a2, "use "@));
            assert(text_at(self.docs(), l, l.len() - 1, ";"@));
            assert(group_doc(self.docs(), l[l.len() - 2].0 as int, "{"@, "}"@, statements@.len() as int, old(self).indent_width()));
            lemma_use_doc_grouped(
                old(self).source_bytes(),
                self.docs(),
                idx.0 as int,
                use_statements.inner@,
                old(self).indent_width(),
                l,
                pl,
            );
        }
        idx
    }

    /// The `//!` docs of a module body, one per line, and a blank line
    /// before the members when both exist. The docs are tokens, not
    /// comments (the comment map never sees them) and only parse at the
    /// top of the body, so printing them there is exact despite their
    /// missing spans.
    fn push_module_docs(&mut self, body: &ModuleBody, list: &mut Vec<DocumentIdx>)
        requires
            old(self).wf(),
            all_below(old(list)@, old(self).docs().len() as int),
        ensures
            final(self).grows_quietly(old(self)),
            all_below(final(list)@, final(self).docs().len() as int),
            appends(
                final(list)@,
                old(list)@,
                final(self).docs(),
                module_docs(body.documentation@, body.members@.len() > 0),
            ),
    {
        let mut i: usize = 0;
        proof {
            lemma_appends_nothing(list@, self.docs());
            reveal_strlit("//!");
            assert("//!"@ =~= seq!['/', '/', '!']);
            assert(body.documentation@.take(0) =~= Seq::<String>::empty());
        }
        while i < body.documentation.len()
            invariant
                i <= body.documentation@.len(),
                self.grows_quietly(old(self)),
                all_below(list@, self.docs().len() as int),
                appends(list@, old(list)@, self.docs(), module_doc_lines(body.documentation@.take(i as int))),
                "//!"@ == seq!['/', '/', '!'],
            decreases body.documentation@.len() - i,
        {
            let ghost lines = module_doc_lines(body.documentation@.take(i as int));
            proof {
                let t = body.documentation@.take(i + 1);
                assert(t.drop_last() =~= body.documentation@.take(i as int));
                assert(t.last() == body.documentation@[i as int]);
            }
            if i > 0 {
                let ghost d0 = self.docs();
                let line_break = self.newline();
                proof {
                    lemma_appends_grows(list@, old(list)@, d0, self.docs(), lines);
                    lemma_appends_push(list@, old(list)@, self.docs(), lines, line_break);
                }
                list.push(line_break);
            }
            let ghost head = lines + (if i + 1 > 1 {
                seq![DocumentView::Newline]
            } else {
                Seq::empty()
            });
            proof {
                if i == 0 {
                    assert(lines =~= head);
                } else {
                    assert(lines.push(DocumentView::Newline) =~= head);
                }
            }
            let ghost d1 = self.docs();
            let doc = self.text2("//!", body.documentation[i].as_str());
            proof {
                lemma_appends_grows(list@, old(list)@, d1, self.docs(), head);
                lemma_appends_push(list@, old(list)@, self.docs(), head, doc);
                assert(head.push(self.docs()[doc.0 as int]) =~= module_doc_lines(
                    body.documentation@.take(i + 1),
                ));
            }
            list.push(doc);
            i = i + 1;
        }
        proof {
            assert(body.documentation@.take(body.documentation@.len() as int) =~= body.documentation@);
        }
        let ghost lines = module_doc_lines(body.documentation@);
        if body.documentation.len() > 0 && body.members.len() > 0 {
            let ghost d0 = self.docs();
            let first = self.newline();
            proof {
                lemma_appends_grows(list@, old(list)@, d0, self.docs(), lines);
                lemma_appends_push(list@, old(list)@, self.docs(), lines, first);
            }
            list.push(first);
            let ghost d1 = self.docs();
            let second = self.newline();
            proof {
                let l1 = lines.push(DocumentView::Newline);
                lemma_appends_grows(list@, old(list)@, d1, self.docs(), l1);
                lemma_appends_push(list@, old(list)@, self.docs(), l1, second);
                assert(l1.push(DocumentView::Newline) =~= module_docs(
                    body.documentation@,
                    body.members@.len() > 0,
                ));
            }
            list.push(second);
        } else {
            proof {
                assert(lines =~= module_docs(body.documentation@, body.members@.len() > 0));
            }
        }
    }

    /// The members of a module body with their comments and blank-line
    /// gaps; returns the effective end line of the last and the byte its
    /// span ends at (`start` when there is none).
    #[verifier::rlimit(60)]
    fn push_module_members<'c>(
        &mut self,
        body: &Loc<ModuleBody>,
        start: usize,
        list: &mut Vec<DocumentIdx>,
        comments: &mut CommentMap<'c>,
    ) -> (last: (Option<usize>, usize))
        requires
            old(self).ready(old(comments)),
            all_below(old(list)@, old(self).docs().len() as int),
        ensures
            module_body_ok(old(self).source_bytes(), *body) <==> final(self).reported() == old(self).reported(),
            final(self).grows(old(self)),
            final(comments).kept_from(old(comments)),
            all_below(final(list)@, final(self).docs().len() as int),
            body.inner.members@.len() == 0 ==> (final(list)@ == old(list)@ && *final(self) == *old(self)
                && *final(comments) == *old(comments) && last == (None::<usize>, start)),
            exists|leadings: Seq<Seq<CommentToPrint<'c>>>, items: Seq<DocumentView>, trailings: Seq<
                Seq<CommentToPrint<'c>>,
            >|
                #![trigger members_docs(old(comments).layout(), body.inner.members@, leadings, items, trailings, body.inner.members@.len() as int)]
                leadings.len() == body.inner.members@.len() && items.len() == body.inner.members@.len()
                    && trailings.len() == body.inner.members@.len() && appends(
                    final(list)@,
                    old(list)@,
                    final(self).docs(),
                    members_docs(
                        old(comments).layout(),
                        body.inner.members@,
                        leadings,
                        items,
                        trailings,
                        body.inner.members@.len() as int,
                    ),
                ) && (body.inner.members@.len() > 0 ==> last.0 == Some(
                    member_end_line(
                        old(comments).layout(),
                        body.inner.members@,
                        trailings,
                        body.inner.members@.len() - 1,
                    ) as usize,
                )) && (body.inner.members@.len() == 0 ==> last.0 is None),
        decreases body, 0int,
    {
        let mut prev_end_line: Option<usize> = None;
        let mut last_end_byte: usize = start;
        let mut i: usize = 0;
        let ghost layout = old(comments).layout();
        let ghost members = body.inner.members@;
        let ghost mut leadings: Seq<Seq<CommentToPrint<'c>>> = Seq::empty();
        let ghost mut items: Seq<DocumentView> = Seq::empty();
        let ghost mut trailings: Seq<Seq<CommentToPrint<'c>>> = Seq::empty();
        proof {
            lemma_appends_nothing(list@, self.docs());
        }
        while i < body.inner.members.len()
            invariant
                layout == old(comments).layout(),
                members == body.inner.members@,
                leadings.len() == i && items.len() == i && trailings.len() == i,
                appends(list@, old(list)@, self.docs(), members_docs(layout, members, leadings, items, trailings, i as int)),
                i > 0 ==> prev_end_line == Some(member_end_line(layout, members, trailings, i - 1) as usize)
                    && member_end_line(layout, members, trailings, i - 1) <= usize::MAX,
                comments.layout() == layout,
                (self.reported() == old(self).reported()) <==> items_ok(old(self).source_bytes(), body.inner.members@, i as int),
                i <= body.inner.members@.len(),
                self.grows(old(self)),
                comments.kept_from(old(comments)),
                self.ready(comments),
                i == 0 ==> (list@ == old(list)@ && *self == *old(self) && *comments == *old(comments)
                    && prev_end_line is None && last_end_byte == start),
                all_below(list@, self.docs().len() as int),
            decreases body.inner.members@.len() - i,
        {
            let item = &body.inner.members[i];
            let item_range = span_of_item(item);
            let ghost l0 = list@;
            let ghost prior = members_docs(layout, members, leadings, items, trailings, i as int);
            let leading = self.claim_leading(comments, item_range.start, false, false);
            let item_line = self.line_of(comments, item_range.start);
            let effective_start = if leading.len() > 0 {
                leading[0].start_line
            } else {
                item_line
            };
            let ghost sep: Seq<DocumentView> = if i > 0 {
                seq![DocumentView::Newline] + gap_before(prev_end_line, effective_start as int)
            } else {
                Seq::empty()
            };
            let ghost l1 = list@;
            let ghost d1 = self.docs();
            if i > 0 {
                let line_break = self.newline();
                proof {
                    lemma_appends_nothing(list@, self.docs());
                    lemma_appends_push(list@, l1, self.docs(), Seq::empty(), line_break);
                    assert(Seq::<DocumentView>::empty().push(DocumentView::Newline) =~= seq![DocumentView::Newline]);
                }
                list.push(line_break);
                if let Some(prev) = prev_end_line {
                    if prev < effective_start && effective_start - prev > 1 {
                        let ghost d = self.docs();
                        let gap = self.newline();
                        proof {
                            lemma_appends_grows(list@, l1, d, self.docs(), seq![DocumentView::Newline]);
                            lemma_appends_push(list@, l1, self.docs(), seq![DocumentView::Newline], gap);
                            assert(seq![DocumentView::Newline].push(DocumentView::Newline) =~= sep);
                        }
                        list.push(gap);
                    } else {
                        proof {
                            assert(seq![DocumentView::Newline] =~= sep);
                        }
                    }
                }
            } else {
                proof {
                    lemma_appends_nothing(list@, self.docs());
                }
            }
            let ghost l2 = list@;
            let ghost d2 = self.docs();
            self.emit_leading(&leading, item_line, list);
            let ghost l3 = list@;
            let ghost d3 = self.docs();
            let item_doc = self.build_item(item, comments);
            list.push(item_doc);
            let ghost item_view = self.docs()[item_doc.0 as int];
            let ghost l4 = list@;
            let ghost d4 = self.docs();
            let end_line = self.line_of(comments, item_range.end);
            let trailing = comments.take_trailing(item_range.end, end_line);
            self.emit_trailing(&trailing, list);
            proof {
                let docs = self.docs();
                // Each piece appended stays appended as the documents grow.
                lemma_appends_grows(l1, old(list)@, d1, docs, prior);
                lemma_appends_grows(l2, l1, d2, docs, sep);
                lemma_appends_grows(l3, l2, d3, docs, leading_docs(leading@, item_line as int));
                lemma_appends_nothing(l3, d4);
                lemma_appends_push(l3, l3, d4, Seq::empty(), item_doc);
                assert(Seq::<DocumentView>::empty().push(item_view) =~= seq![item_view]);
                lemma_appends_grows(l4, l3, d4, docs, seq![item_view]);
                lemma_appends_chain(l2, l1, old(list)@, docs, prior, sep);
                lemma_appends_chain(l3, l2, old(list)@, docs, prior + sep, leading_docs(leading@, item_line as int));
                lemma_appends_chain(l4, l3, old(list)@, docs, prior + sep + leading_docs(leading@, item_line as int), seq![item_view]);
                lemma_appends_chain(
                    list@,
                    l4,
                    old(list)@,
                    docs,
                    prior + sep + leading_docs(leading@, item_line as int) + seq![item_view],
                    trailing_docs(trailing@),
                );
                let ghost old_leadings = leadings;
                let ghost old_items = items;
                let ghost old_trailings = trailings;
                leadings = leadings.push(leading@);
                items = items.push(item_view);
                trailings = trailings.push(trailing@);
                assert(item_line as int == layout.line_of(item_span(members[i as int]).start as int));
                assert(effective_start as int == crate::document_builder::effective_start(
                    leading@,
                    item_line as int,
                ));
                lemma_members_docs_step(
                    layout,
                    members,
                    old_leadings,
                    old_items,
                    old_trailings,
                    i as int,
                    leading@,
                    item_view,
                    trailing@,
                );
            }
            prev_end_line = Some(
                if trailing.len() > 0 {
                    trailing[trailing.len() - 1].end_line
                } else {
                    end_line
                },
            );
            last_end_byte = item_range.end;
            i = i + 1;
        }
        (prev_end_line, last_end_byte)
    }

    /// `end` bounds the scope-trailing comment claim (the enclosing
    /// module's closing brace).
    pub fn build_module_body<'c>(&mut self, body: &Loc<ModuleBody>, end: usize, comments: &mut CommentMap<'c>) -> (idx:
        DocumentIdx)
        requires
            old(self).ready(old(comments)),
        ensures
            module_body_ok(old(self).source_bytes(), *body) <==> final(self).reported() == old(self).reported(),
            built(final(self), old(self), final(comments), old(comments), idx),
        decreases body, 1int,
    {
        let mut list: Vec<DocumentIdx> = Vec::new();
        self.push_module_docs(&body.inner, &mut list);
        let (prev_end_line, last_end_byte) = self.push_module_members(body, body.span.start, &mut list, comments);
        let rest = self.claim_between(comments, last_end_byte, end);
        self.emit_scope_trailing(&rest, prev_end_line, &mut list);
        self.list(list)
    }

    pub fn build_module<'c>(&mut self, module: &Loc<Module>, comments: &mut CommentMap<'c>) -> (idx:
        DocumentIdx)
        requires
            old(self).ready(old(comments)),
        ensures
            item_ok(old(self).source_bytes(), Item::Module(*module)) <==> final(self).reported() == old(self).reported(),
            built(final(self), old(self), final(comments), old(comments), idx),
        decreases module, 0int,
    {
        let attributes = self.build_attribute_list(&module.inner.attributes, true, comments);
        let mut list: Vec<DocumentIdx> = vec![attributes];
        if let Some(visibility) = self.visibility_prefix(&module.inner.visibility) {
            list.push(visibility);
        }
        let name_text = self.identifier_text(&module.inner.name);
        let head = self.text_owned(concat3("mod ", name_text.as_str(), " {"));
        list.push(head);
        let body = self.build_module_body(&module.inner.body, module.span.end, comments);
        if !self.is_empty(body) {
            let before = self.newline();
            list.push(before);
            let by = self.indent;
            let nested = self.nest(body, by);
            list.push(nested);
            let after = self.newline();
            list.push(after);
        }
        let close = self.text("}");
        list.push(close);
        self.list(list)
    }

    pub fn build_item<'c>(&mut self, item: &Item, comments: &mut CommentMap<'c>) -> (idx:
        DocumentIdx)
        requires
            old(self).ready(old(comments)),
        ensures
            item_ok(old(self).source_bytes(), *item) <==> final(self).reported() == old(self).reported(),
            built(final(self), old(self), final(comments), old(comments), idx),
        decreases item, 0int,
    {
        match item {
            Item::Unit(unit) => self.build_unit(unit, comments),
            // Macro bodies are raw token streams the lexer has already
            // mangled (lexemes, spacing, and comments are unrecoverable
            // from the tree), so the whole construct prints verbatim from
            // its source span.
            Item::MacroDef(macro_def) => {
                let attributes = self.build_attribute_list(&macro_def.inner.attributes, true, comments);
                let mut list: Vec<DocumentIdx> = vec![attributes];
                if let Some(visibility) = self.visibility_prefix(&macro_def.inner.visibility) {
                    list.push(visibility);
                }
                let raw = self.raw_source_span(macro_def.span, comments);
                list.push(raw);
                self.list(list)
            },
            Item::TraitDef(trait_def) => self.build_trait_def(trait_def, comments),
            Item::Type(declaration) => self.build_type_declaration(declaration, comments),
            Item::ExternalMod(external) => {
                let attributes = self.build_attribute_list(&external.inner.attributes, true, comments);
                let mut list: Vec<DocumentIdx> = vec![attributes];
                if let Some(visibility) = self.visibility_prefix(&external.inner.visibility) {
                    list.push(visibility);
                }
                let name_text = self.identifier_text(&external.inner.name);
                let declaration = self.text_owned(concat3("mod ", name_text.as_str(), ";"));
                list.push(declaration);
                self.list(list)
            },
            Item::Module(module) => self.build_module(module, comments),
            Item::Use(attributes, use_statements) => self.build_use(attributes, use_statements, comments),
            Item::ImplBlock(impl_block) => self.build_impl_block(impl_block, comments),
        }
    }

    /// Builds the document of a whole source file from its module body,
    /// placing every comment of `comments`: those no construct claims
    /// print at the end, and count as misplaced when they lie before the
    /// last member's end. Returns the store, the root document, and the
    /// diagnostics (constructs it cannot format, spans outside the source,
    /// and diagnostics the parser embedded in the tree).
    pub fn build_root<'c>(
        self,
        root: &Loc<ModuleBody>,
        source: &'code str,
        comments: &mut CommentMap<'c>,
    ) -> (result: (InternedDocumentStore, DocumentIdx, Vec<BuildDiagnostic>))
        requires
            self.wf(),
            self.diagnostic_list().len() == 0,
            old(comments).wf(),
            old(comments).layout().bytes == source.spec_bytes(),
            old(comments).misplaced_count() + old(comments).count() <= usize::MAX,
        ensures
            result.0.wf(),
            result.0.valid(result.1),
            spans_outside(source.spec_bytes(), result.2@),
            module_body_ok(source.spec_bytes(), *root) <==> reported_count(result.2@)
                == self.reported(),
            reported_count(result.2@) >= self.reported(),
            final(comments).wf(),
            final(comments).layout() == old(comments).layout(),
            forall|k: int|
                0 <= k < final(comments).count() ==> #[trigger] final(comments).claimed_at(k),
            result.0@[result.1.0 as int] matches DocumentView::List(l) && (l.len() > 0 ==> l[0].0
                < result.0@.len() && result.0@[l[0].0 as int] != DocumentView::Newline),
            final(comments).misplaced_count() <= old(comments).misplaced_count() + old(comments).count(),
            exists|
                docs: Seq<DocumentView>,
                list: Seq<DocumentIdx>,
                leadings: Seq<Seq<CommentToPrint<'c>>>,
                items: Seq<DocumentView>,
                trailings: Seq<Seq<CommentToPrint<'c>>>,
                rest: Seq<CommentToPrint<'c>>,
            |
                #[trigger] root_laid_out(
                    old(comments).layout(),
                    *root,
                    result.0@,
                    result.0@[result.1.0 as int],
                    docs,
                    list,
                    leadings,
                    items,
                    trailings,
                    rest,
                ),
            root.inner.members@.len() == 0 && root.inner.documentation@.len() == 0 && old(
                comments,
            ).count() == 0 ==> result.0@[result.1.0 as int] == DocumentView::List(Seq::empty())
                && result.2@ == self.diagnostic_list(),
    {
        let mut builder = self;
        proof {
            old(comments).lemma_wf_layout();
        }
        builder.source = source;
        let mut list: Vec<DocumentIdx> = Vec::new();
        builder.push_module_docs(&root.inner, &mut list);
        let ghost list_docs = list@;
        let ghost docs_after_docs = builder.docs();
        let ghost comments_before_members = *comments;
        let (prev_end_line, last_end_byte) = builder.push_module_members(root, 0, &mut list, comments);
        let ghost members = root.inner.members@;
        let ghost n = members.len() as int;
        let ghost (leadings, items, trailings) = choose|
            leadings: Seq<Seq<CommentToPrint<'c>>>,
            items: Seq<DocumentView>,
            trailings: Seq<Seq<CommentToPrint<'c>>>,
        |
            #![trigger members_docs(comments_before_members.layout(), members, leadings, items, trailings, n)]
            leadings.len() == n && items.len() == n && trailings.len() == n && appends(
                list@,
                list_docs,
                builder.docs(),
                members_docs(comments_before_members.layout(), members, leadings, items, trailings, n),
            ) && (n > 0 ==> prev_end_line == Some(
                member_end_line(comments_before_members.layout(), members, trailings, n - 1) as usize,
            )) && (n == 0 ==> prev_end_line is None);
        let ghost members_list = list@;
        let ghost members_docs_view = builder.docs();
        let ghost l1 = list@;
        let rest = comments.take_rest(last_end_byte);
        proof {
            if root.inner.members@.len() == 0 && root.inner.documentation@.len() == 0 && old(
                comments,
            ).count() == 0 {
                assert(l1 =~= Seq::<DocumentIdx>::empty());
                assert(rest@ =~= Seq::<CommentToPrint>::empty());
            }
        }
        builder.emit_scope_trailing(&rest, prev_end_line, &mut list);
        proof {
            let d = builder.docs();
            lemma_appends_grows(list_docs, Seq::empty(), docs_after_docs, d, module_docs(root.inner.documentation@, n > 0));
            lemma_appends_grows(
                members_list,
                list_docs,
                members_docs_view,
                d,
                members_docs(comments_before_members.layout(), members, leadings, items, trailings, n),
            );
            lemma_appends_chain(
                members_list,
                list_docs,
                Seq::empty(),
                d,
                module_docs(root.inner.documentation@, n > 0),
                members_docs(comments_before_members.layout(), members, leadings, items, trailings, n),
            );
            lemma_appends_chain(
                list@,
                members_list,
                Seq::empty(),
                d,
                module_docs(root.inner.documentation@, n > 0) + members_docs(
                    comments_before_members.layout(),
                    members,
                    leadings,
                    items,
                    trailings,
                    n,
                ),
                scope_trailing_docs(rest@, prev_end_line),
            );
        }
        proof {
            if root.inner.members@.len() == 0 && root.inner.documentation@.len() == 0 && old(
                comments,
            ).count() == 0 {
                assert(list@ =~= Seq::<DocumentIdx>::empty());
                assert(skip_leading_newlines(builder.docs(), list@) =~= Seq::<DocumentIdx>::empty());
            }
        }
        let ghost before = builder.docs();
        let ghost l0 = list@;
        let idx = builder.trim_list(list);
        proof {
            assert(root_laid_out(
                old(comments).layout(),
                *root,
                builder.docs(),
                builder.docs()[idx.0 as int],
                before,
                l0,
                leadings,
                items,
                trailings,
                rest@,
            ));
        }
        proof {
            lemma_skip_leading_newlines(before, l0);
            let skipped = skip_leading_newlines(before, l0);
            if skipped.len() > 0 {
                lemma_drop_doubled_keeps_first(before, skipped);
                assert(builder.docs()[skipped[0].0 as int] == before[skipped[0].0 as int]);
            }
        }
        (builder.inner, idx, builder.diagnostics)
    }
}

} // verus!
