//! The parts of parsed Python source that layout decisions read: ranges,
//! expression and statement kinds, attached comments, and the formatting
//! context.
use vstd::prelude::*;

verus! {

/// A range of byte offsets `start..end` into the source text.
#[derive(Clone, Copy, Debug, PartialEq, Eq, Structural)]
pub struct TextRange {
    pub start: u32,
    pub end: u32,
}

/// Whether a comment stands on a line of its own or after code.
#[derive(Clone, Copy, Debug, PartialEq, Eq, Structural)]
pub enum LinePosition {
    OwnLine,
    EndOfLine,
}

/// A comment, with the range of its text (from `#`).
#[derive(Clone, Copy, Debug, PartialEq, Eq, Structural)]
pub struct SourceComment {
    pub range: TextRange,
    pub line_position: LinePosition,
}

/// Unary operators.
#[derive(Clone, Copy, Debug, PartialEq, Eq, Structural)]
pub enum UnaryOp {
    Invert,
    Not,
    UAdd,
    USub,
}

/// What kind of expression a node is. Only the distinctions that layout
/// decisions make are kept; every other kind of expression is `Other`.
#[derive(Debug)]
pub enum ExprKind {
    List,
    Tuple,
    NumberLiteral,
    UnaryOp { op: UnaryOp, operand: Box<ExprKind> },
    Other,
}

/// An expression node.
///
/// `elts` holds the elements of a list or tuple and is empty for any other
/// kind. The comments are those attached to this node; `subtree_has_comments`
/// says whether the node or any node below it has comments. `printed` is the
/// node as the formatter prints it on its own, or `None` where printing failed.
#[derive(Debug)]
pub struct Expr {
    pub kind: ExprKind,
    pub range: TextRange,
    pub elts: Vec<Expr>,
    pub leading_comments: Vec<SourceComment>,
    pub dangling_comments: Vec<SourceComment>,
    pub trailing_comments: Vec<SourceComment>,
    pub subtree_has_comments: bool,
    pub printed: Option<Vec<char>>,
}

/// The formatting context: the source text (UTF-8 bytes), the options that
/// layout reads, and the indentation of the enclosing statement in columns.
pub struct PyFormatContext<'a> {
    pub source: &'a [u8],
    pub tali_mode: bool,
    pub indent_width: u32,
    pub line_width: u16,
    pub statement_indent: u16,
}

/// A list or a tuple.
pub open spec fn is_sequence(e: Expr) -> bool {
    e.kind is List || e.kind is Tuple
}

/// The node has leading, dangling or trailing comments.
pub open spec fn has_comments(e: Expr) -> bool {
    e.leading_comments@.len() > 0 || e.dangling_comments@.len() > 0 || e.trailing_comments@.len() > 0
}

/// Ranges of `e` and of every node below it lie inside a source of `len`
/// bytes, elements follow each other in order, and trailing comments start
/// after the node.
#[verifier::opaque]
pub open spec fn expr_wf(e: Expr, len: nat) -> bool
    decreases e,
{
    &&& e.range.start <= e.range.end <= len
    &&& forall|j: int|
        0 <= j < e.trailing_comments@.len() ==> e.range.end <= (#[trigger] e.trailing_comments@[j]).range.start <= len
    &&& forall|i: int| 0 <= i < e.elts@.len() - 1 ==> (#[trigger] e.elts@[i]).range.end <= e.elts@[i + 1].range.start
    &&& forall|i: int| 0 <= i < e.elts@.len() ==> expr_wf(#[trigger] e.elts@[i], len)
}

/// Kinds of statement that layout treats alike, each standing for one
/// kind of Python statement other than the assignments.
#[derive(Clone, Copy, Debug, PartialEq, Eq, Structural)]
pub enum StmtTag {
    FunctionDef,
    ClassDef,
    Return,
    Delete,
    TypeAlias,
    For,
    While,
    If,
    With,
    Match,
    Raise,
    Try,
    Assert,
    Import,
    ImportFrom,
    Global,
    Nonlocal,
    Expr,
    Pass,
    Break,
    Continue,
    IpyEscapeCommand,
}

/// What kind of statement a node is, with the ranges of the parts of an
/// assignment.
#[derive(Debug)]
#[allow(inconsistent_fields)]
pub enum StmtKind {
    /// `targets = value`, possibly with several targets.
    Assign { targets: Vec<TextRange>, value: TextRange },
    /// `target: annotation`, possibly `= value`.
    AnnAssign { target: TextRange, annotation: TextRange, value: Option<TextRange> },
    /// `target op= value`.
    AugAssign,
    Other(StmtTag),
}

/// A statement, with the comments that trail it.
#[derive(Debug)]
pub struct Stmt {
    pub kind: StmtKind,
    pub range: TextRange,
    pub trailing_comments: Vec<SourceComment>,
}

pub open spec fn range_in(inner: TextRange, lo: u32, hi: u32) -> bool {
    lo <= inner.start <= inner.end <= hi
}

/// Ranges of the statement lie inside a source of `len` bytes, the parts
/// of an assignment in order inside the statement, and its trailing
/// comments inside the source.
pub open spec fn stmt_wf(s: Stmt, len: nat) -> bool {
    &&& s.range.start <= s.range.end <= len
    &&& forall|j: int|
        0 <= j < s.trailing_comments@.len() ==> (#[trigger] s.trailing_comments@[j]).range.start
            <= s.trailing_comments@[j].range.end <= len
    &&& match s.kind {
        StmtKind::Assign { targets, value } => {
            &&& range_in(value, s.range.start, s.range.end)
            &&& forall|i: int|
                0 <= i < targets@.len() ==> range_in(#[trigger] targets@[i], s.range.start, value.start)
        },
        StmtKind::AnnAssign { target, annotation, value } => {
            &&& range_in(target, s.range.start, annotation.start)
            &&& range_in(annotation, target.end, s.range.end)
            &&& (value matches Some(v) ==> range_in(v, annotation.end, s.range.end))
        },
        _ => true,
    }
}

/// What `expr_wf` says of a node and its elements.
pub proof fn lemma_expr_wf(e: Expr, len: nat)
    requires
        expr_wf(e, len),
    ensures
        e.range.start <= e.range.end <= len,
        forall|j: int|
            0 <= j < e.trailing_comments@.len() ==> e.range.end <= (#[trigger] e.trailing_comments@[j]).range.start <= len,
        forall|i: int| 0 <= i < e.elts@.len() - 1 ==> (#[trigger] e.elts@[i]).range.end <= e.elts@[i + 1].range.start,
        forall|i: int| 0 <= i < e.elts@.len() ==> expr_wf(#[trigger] e.elts@[i], len),
{
    reveal(expr_wf);
}

} // verus!
