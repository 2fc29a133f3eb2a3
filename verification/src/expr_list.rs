//! List literals, and the column alignment of rectangular nested lists and
//! tuples in Tali mode.
use vstd::prelude::*;

use crate::ast::{Expr, ExprKind, PyFormatContext, UnaryOp, is_sequence, has_comments, expr_wf, lemma_expr_wf};
use crate::text::{
    find_char, find_from, has_line_break, contains_line_break, lemma_find_from, rfind_in, rfind_byte_in,
    count_in, count_byte, has_byte, contains_byte, lemma_rfind_before,
};
use crate::width::{text_width, spec_text_width, lemma_text_width_split, is_printable_ascii};

verus! {

/// Width of a cell as printed, and for a number the widths of its two sides
/// of the decimal point.
#[derive(Clone, Copy, Debug, PartialEq, Eq, Structural)]
pub struct ScalarMetrics {
    pub width: u32,
    pub decimal: Option<DecimalMetrics>,
}

/// Width before the decimal point, and from the decimal point on (the point
/// included; 0 where the number has none).
#[derive(Clone, Copy, Debug, PartialEq, Eq, Structural)]
pub struct DecimalMetrics {
    pub left_width: u32,
    pub right_width: u32,
}

/// How one column of an aligned sequence is laid out: left-aligned to a
/// width, or numbers aligned on their decimal point.
#[derive(Clone, Copy, Debug, PartialEq, Eq, Structural)]
pub enum ColumnLayout {
    Left { width: u32 },
    Decimal { left_width: u32, right_width: u32 },
}

/// Brackets of a list, parentheses of a tuple.
#[derive(Clone, Copy, Debug, PartialEq, Eq, Structural)]
pub enum SequenceKind {
    List,
    Tuple,
}

/// Columns that a layout gives its cells.
pub open spec fn layout_width(layout: ColumnLayout) -> u32 {
    match layout {
        ColumnLayout::Left { width } => width,
        ColumnLayout::Decimal { left_width, right_width } => left_width.saturating_add(right_width),
    }
}

/// Spaces put before a cell.
pub open spec fn spec_leading_padding(layout: ColumnLayout, metrics: ScalarMetrics) -> u32 {
    match (layout, metrics.decimal) {
        (ColumnLayout::Decimal { left_width, .. }, Some(cell)) => left_width.saturating_sub(
            cell.left_width,
        ),
        _ => 0,
    }
}

/// Spaces put after a cell.
pub open spec fn spec_trailing_padding(layout: ColumnLayout, metrics: ScalarMetrics) -> u32 {
    match (layout, metrics.decimal) {
        (ColumnLayout::Left { width }, _) => width.saturating_sub(metrics.width),
        (ColumnLayout::Decimal { right_width, .. }, Some(cell)) => right_width.saturating_sub(
            cell.right_width,
        ),
        (ColumnLayout::Decimal { .. }, None) => 0,
    }
}

impl ColumnLayout {
    /// Columns that the layout gives its cells: the width of a left-aligned
    /// column, or the two decimal sides together (saturating).
    pub fn width(self) -> (r: u32)
        ensures
            r == layout_width(self),
    {
        match self {
            ColumnLayout::Left { width } => width,
            ColumnLayout::Decimal { left_width, right_width } => left_width.saturating_add(
                right_width,
            ),
        }
    }

    /// Spaces before a cell: in a decimal column, what its integer side lacks
    /// of the column's; otherwise none.
    pub fn leading_padding(self, metrics: ScalarMetrics) -> (r: u32)
        ensures
            r == spec_leading_padding(self, metrics),
    {
        match (self, metrics.decimal) {
            (ColumnLayout::Decimal { left_width, .. }, Some(cell)) => left_width.saturating_sub(
                cell.left_width,
            ),
            _ => 0,
        }
    }

    /// Spaces after a cell: what it lacks of a left-aligned column's width,
    /// or what its fractional side lacks of a decimal column's.
    pub fn trailing_padding(self, metrics: ScalarMetrics) -> (r: u32)
        ensures
            r == spec_trailing_padding(self, metrics),
    {
        match (self, metrics.decimal) {
            (ColumnLayout::Left { width }, _) => width.saturating_sub(metrics.width),
            (ColumnLayout::Decimal { right_width, .. }, Some(cell)) => right_width.saturating_sub(
                cell.right_width,
            ),
            (ColumnLayout::Decimal { .. }, None) => 0,
        }
    }
}

impl SequenceKind {
    /// Opening and closing delimiter.
    pub fn delimiters(self) -> (r: (&'static str, &'static str))
        ensures
            self is List ==> r.0@ == "["@ && r.1@ == "]"@,
            self is Tuple ==> r.0@ == "("@ && r.1@ == ")"@,
    {
        match self {
            SequenceKind::List => ("[", "]"),
            SequenceKind::Tuple => ("(", ")"),
        }
    }
}

/// Integer side and decimal side of a number as printed: split at the first
/// `.`, the point going to the right side.
pub open spec fn decimal_split(text: Seq<char>) -> (Seq<char>, Seq<char>) {
    match find_from(text, '.', 0) {
        Some(d) => (text.take(d), text.skip(d)),
        None => (text, Seq::<char>::empty()),
    }
}

/// Metrics of a number printed as `text`.
pub open spec fn spec_numeric_metrics(text: Seq<char>, indent_width: u32) -> Option<ScalarMetrics> {
    let (left, right) = decimal_split(text);
    match (
        spec_text_width(text, indent_width),
        spec_text_width(left, indent_width),
        spec_text_width(right, indent_width),
    ) {
        (Some(width), Some(left_width), Some(right_width)) => Some(
            ScalarMetrics { width, decimal: Some(DecimalMetrics { left_width, right_width }) },
        ),
        _ => None,
    }
}

/// Metrics of the number printed as `text`: its width, and the widths before
/// and from its decimal point. `None` exactly where `text` has no width; the
/// two sides then add up to the whole.
pub fn numeric_metrics(text: &[char], context: &PyFormatContext) -> (r: Option<ScalarMetrics>)
    ensures
        r == spec_numeric_metrics(text@, context.indent_width),
        r is Some <==> spec_text_width(text@, context.indent_width) is Some,
        r matches Some(m) ==> m.decimal matches Some(d) && m.width == d.left_width + d.right_width,
        is_printable_ascii(text@) && text@.len() <= u32::MAX ==> r == Some(
            ScalarMetrics {
                width: text@.len() as u32,
                decimal: Some(
                    DecimalMetrics {
                        left_width: decimal_split(text@).0.len() as u32,
                        right_width: decimal_split(text@).1.len() as u32,
                    },
                ),
            },
        ),
{
    let width = match text_width(text, context.indent_width) {
        Some(w) => w,
        None => return None,
    };
    let (left, right) = match find_char(text, '.') {
        Some(d) => {
            proof {
                lemma_find_from(text@, '.', 0);
            }
            (&text[0..d], &text[d..text.len()])
        },
        None => (text, &text[text.len()..text.len()]),
    };
    proof {
        let k = left@.len() as int;
        assert(left@ =~= text@.take(k));
        assert(right@ =~= text@.skip(k));
        assert(decimal_split(text@).0 =~= left@);
        assert(decimal_split(text@).1 =~= right@);
        lemma_text_width_split(text@, k, context.indent_width);
        if is_printable_ascii(text@) {
            assert forall|i: int| 0 <= i < left@.len() implies 0x20 <= (#[trigger] left@[i] as u32) && (left@[i] as u32)
                < 0x7F by {
                assert(left@[i] == text@[i]);
            }
            assert forall|i: int| 0 <= i < right@.len() implies 0x20 <= (#[trigger] right@[i] as u32) && (right@[i] as u32)
                < 0x7F by {
                assert(right@[i] == text@[k + i]);
            }
        }
    }
    let left_width = match text_width(left, context.indent_width) {
        Some(w) => w,
        None => return None,
    };
    let right_width = match text_width(right, context.indent_width) {
        Some(w) => w,
        None => return None,
    };
    Some(ScalarMetrics { width, decimal: Some(DecimalMetrics { left_width, right_width }) })
}

/// A number, or a number behind a unary `+` or `-`.
pub open spec fn spec_is_numeric(kind: ExprKind) -> bool {
    match kind {
        ExprKind::NumberLiteral => true,
        ExprKind::UnaryOp { op, operand } => (op is UAdd || op is USub) && *operand is NumberLiteral,
        _ => false,
    }
}

/// Whether the expression is a number, or a number behind a unary `+` or `-`.
pub fn is_numeric_scalar(expression: &Expr) -> (r: bool)
    ensures
        r == spec_is_numeric(expression.kind),
{
    match &expression.kind {
        ExprKind::NumberLiteral => true,
        ExprKind::UnaryOp { op, operand } => match op {
            UnaryOp::UAdd | UnaryOp::USub => match &**operand {
                ExprKind::NumberLiteral => true,
                _ => false,
            },
            _ => false,
        },
        _ => false,
    }
}

/// The expression as printed on its own, where that is one line.
pub open spec fn spec_formatted_scalar(e: Expr) -> Option<Seq<char>> {
    match e.printed {
        Some(p) => if p@.contains('\n') || p@.contains('\r') {
            None
        } else {
            Some(p@)
        },
        None => None,
    }
}

/// The expression as the formatter prints it on its own, or `None` where
/// printing failed or gave more than one line.
pub fn formatted_scalar(expression: &Expr) -> (r: Option<&[char]>)
    ensures
        r matches Some(t) ==> spec_formatted_scalar(*expression) == Some(t@),
        r is None ==> spec_formatted_scalar(*expression) is None,
{
    match &expression.printed {
        Some(printed) => {
            let mut i: usize = 0;
            while i < printed.len()
                invariant
                    i <= printed@.len(),
                    expression.printed matches Some(q) && q@ == printed@,
                    forall|j: int| 0 <= j < i ==> printed@[j] != '\n' && printed@[j] != '\r',
                decreases printed@.len() - i,
            {
                if printed[i] == '\n' || printed[i] == '\r' {
                    proof {
                        let p = expression.printed.unwrap()@;
                        assert(p[i as int] == '\n' || p[i as int] == '\r');
                        if p[i as int] == '\n' {
                            assert(p.contains('\n'));
                        } else {
                            assert(p.contains('\r'));
                        }
                    }
                    return None;
                }
                i = i + 1;
            }
            Some(printed.as_slice())
        },
        None => None,
    }
}

/// Metrics of a cell: `None` for a list or tuple, an expression over more
/// than one source line, one with comments in it, or one whose printed form
/// is not a single line with a width.
pub open spec fn spec_scalar_metrics(e: Expr, source: Seq<u8>, indent_width: u32) -> Option<ScalarMetrics> {
    if is_sequence(e) || has_line_break(source, e.range.start as int, e.range.end as int)
        || e.subtree_has_comments {
        None
    } else {
        match spec_formatted_scalar(e) {
            None => None,
            Some(text) => if spec_is_numeric(e.kind) {
                spec_numeric_metrics(text, indent_width)
            } else {
                match spec_text_width(text, indent_width) {
                    Some(width) => Some(ScalarMetrics { width, decimal: None }),
                    None => None,
                }
            },
        }
    }
}

/// Metrics of an expression as a cell of an aligned sequence.
pub fn formatted_scalar_metrics(expression: &Expr, context: &PyFormatContext) -> (r: Option<ScalarMetrics>)
    requires
        expression.range.start <= expression.range.end <= context.source@.len(),
    ensures
        r == spec_scalar_metrics(*expression, context.source@, context.indent_width),
        r matches Some(m) ==> (m.decimal matches Some(d) ==> m.width == d.left_width + d.right_width),
{
    let is_seq = match &expression.kind {
        ExprKind::List | ExprKind::Tuple => true,
        _ => false,
    };
    if is_seq || contains_line_break(
        context.source,
        expression.range.start as usize,
        expression.range.end as usize,
    ) || expression.subtree_has_comments {
        return None;
    }
    let formatted = match formatted_scalar(expression) {
        Some(t) => t,
        None => return None,
    };
    if is_numeric_scalar(expression) {
        numeric_metrics(formatted, context)
    } else {
        match text_width(formatted, context.indent_width) {
            Some(width) => Some(ScalarMetrics { width, decimal: None }),
            None => None,
        }
    }
}

/// Kind and elements of a list or tuple.
pub fn sequence_elements(expression: &Expr) -> (r: Option<(SequenceKind, &[Expr])>)
    ensures
        r is Some <==> is_sequence(*expression),
        r matches Some(p) ==> p.1@ == expression.elts@ && (p.0 is List <==> expression.kind is List),
{
    match &expression.kind {
        ExprKind::List => Some((SequenceKind::List, expression.elts.as_slice())),
        ExprKind::Tuple => Some((SequenceKind::Tuple, expression.elts.as_slice())),
        _ => None,
    }
}

/// Shape of nested lists and tuples: the length at each level of nesting,
/// outermost first. Empty for any other expression; `None` where a sequence is
/// empty or its elements differ in shape.
pub open spec fn spec_shape(e: Expr) -> Option<Seq<usize>>
    decreases e,
{
    if !is_sequence(e) {
        Some(Seq::empty())
    } else if e.elts@.len() == 0 {
        None
    } else {
        match spec_shape(e.elts@[0]) {
            None => None,
            Some(child) => if forall|i: int|
                1 <= i < e.elts@.len() ==> spec_shape(#[trigger] e.elts@[i]) == Some(child) {
                Some(seq![e.elts.len()] + child)
            } else {
                None
            },
        }
    }
}

fn same_shape(a: &Vec<usize>, b: &Vec<usize>) -> (r: bool)
    ensures
        r == (a@ == b@),
{
    if a.len() != b.len() {
        return false;
    }
    let mut i: usize = 0;
    while i < a.len()
        invariant
            i <= a@.len(),
            a@.len() == b@.len(),
            forall|j: int| 0 <= j < i ==> a@[j] == b@[j],
        decreases a@.len() - i,
    {
        if a[i] != b[i] {
            return false;
        }
        i = i + 1;
    }
    assert(a@ =~= b@);
    true
}

/// Shape of nested lists and tuples (see `spec_shape`).
pub fn nested_sequence_shape(expression: &Expr) -> (r: Option<Vec<usize>>)
    ensures
        r matches Some(v) ==> spec_shape(*expression) == Some(v@),
        r is None ==> spec_shape(*expression) is None,
    decreases expression,
{
    let elements = match sequence_elements(expression) {
        Some((_, elements)) => elements,
        None => return Some(Vec::new()),
    };
    if elements.len() == 0 {
        return None;
    }
    proof {
        assert(decreases_to!(expression => expression.elts@[0]));
    }
    let child_shape = match nested_sequence_shape(&elements[0]) {
        Some(shape) => shape,
        None => return None,
    };
    let mut i: usize = 1;
    while i < elements.len()
        invariant
            1 <= i <= elements@.len(),
            elements@ == expression.elts@,
            is_sequence(*expression),
            spec_shape(expression.elts@[0]) == Some(child_shape@),
            forall|j: int| 1 <= j < i ==> spec_shape(#[trigger] expression.elts@[j]) == Some(child_shape@),
        decreases elements@.len() - i,
    {
        proof {
            assert(decreases_to!(expression => expression.elts@[i as int]));
        }
        match nested_sequence_shape(&elements[i]) {
            Some(shape) => {
                if !same_shape(&shape, &child_shape) {
                    assert(spec_shape(expression.elts@[i as int]) != Some(child_shape@));
                    return None;
                }
            },
            None => {
                assert(spec_shape(expression.elts@[i as int]) != Some(child_shape@));
                return None;
            },
        }
        i = i + 1;
    }
    let mut shape: Vec<usize> = Vec::new();
    shape.push(elements.len());
    let mut k: usize = 0;
    while k < child_shape.len()
        invariant
            k <= child_shape@.len(),
            shape@ == seq![elements.len()] + child_shape@.take(k as int),
        decreases child_shape@.len() - k,
    {
        shape.push(child_shape[k]);
        assert(child_shape@.take(k + 1) =~= child_shape@.take(k as int).push(child_shape@[k as int]));
        k = k + 1;
    }
    assert(child_shape@.take(k as int) =~= child_shape@);
    Some(shape)
}

/// A list or tuple whose elements are all cells, with its nesting depth
/// below the aligned literal.
pub struct LeafRow<'a> {
    pub expression: &'a Expr,
    pub elements: &'a [Expr],
    pub depth: u32,
}

/// A leaf row as a value: its expression and its depth.
pub open spec fn row_view(row: LeafRow) -> (Expr, u32) {
    (*row.expression, row.depth)
}

pub open spec fn rows_view(rows: Seq<LeafRow>) -> Seq<(Expr, u32)> {
    rows.map_values(|row: LeafRow| row_view(row))
}

/// Every element has cell metrics.
pub open spec fn all_cells(elems: Seq<Expr>, source: Seq<u8>, indent_width: u32) -> bool {
    forall|i: int| 0 <= i < elems.len() ==> (#[trigger] spec_scalar_metrics(elems[i], source, indent_width)) is Some
}

/// No leading or dangling comment, and no trailing comment on a line of its
/// own.
pub open spec fn row_comments_allowed(e: Expr) -> bool {
    &&& e.leading_comments@.len() == 0
    &&& e.dangling_comments@.len() == 0
    &&& forall|j: int| 0 <= j < e.trailing_comments@.len() ==> !((#[trigger] e.trailing_comments@[j]).line_position is OwnLine)
}

/// A leaf row found by the collection: its elements are those of its
/// expression and all are cells, and its expression is well formed.
pub open spec fn row_ok(row: LeafRow, source: Seq<u8>, indent_width: u32) -> bool {
    &&& row.elements@ == row.expression.elts@
    &&& is_sequence(*row.expression)
    &&& all_cells(row.elements@, source, indent_width)
    &&& expr_wf(*row.expression, source.len())
}

pub open spec fn rows_ok(rows: Seq<LeafRow>, source: Seq<u8>, indent_width: u32) -> bool {
    forall|i: int| 0 <= i < rows.len() ==> row_ok(#[trigger] rows[i], source, indent_width)
}

/// Leaf rows of nested sequence `e` at `depth`, in source order: `e` itself
/// where all its elements are cells (unless it has leading, dangling or
/// own-line trailing comments), else the rows of each element one level
/// deeper (unless `e` has comments). `None` where a non-sequence is reached
/// or comments are in the way.
pub open spec fn spec_leaf_rows(e: Expr, depth: u32, source: Seq<u8>, indent_width: u32) -> Option<Seq<(Expr, u32)>>
    decreases e, 0int,
{
    if !is_sequence(e) {
        None
    } else if all_cells(e.elts@, source, indent_width) {
        if row_comments_allowed(e) {
            Some(seq![(e, depth)])
        } else {
            None
        }
    } else if has_comments(e) {
        None
    } else {
        spec_rows_seq(e.elts@, e.elts@.len() as int, depth.saturating_add(1), source, indent_width)
    }
}

/// Leaf rows of the first `n` expressions of `elems`, concatenated.
pub open spec fn spec_rows_seq(elems: Seq<Expr>, n: int, depth: u32, source: Seq<u8>, indent_width: u32) -> Option<Seq<(Expr, u32)>>
    decreases elems, n,
{
    if n <= 0 || n > elems.len() {
        Some(Seq::empty())
    } else {
        match spec_rows_seq(elems, n - 1, depth, source, indent_width) {
            None => None,
            Some(front) => match spec_leaf_rows(elems[n - 1], depth, source, indent_width) {
                None => None,
                Some(back) => Some(front + back),
            },
        }
    }
}

/// Once the rows of a prefix fail, the rows of every longer prefix fail.
proof fn lemma_rows_seq_none(elems: Seq<Expr>, k: int, n: int, depth: u32, source: Seq<u8>, indent_width: u32)
    requires
        0 < k <= n <= elems.len(),
        spec_rows_seq(elems, k, depth, source, indent_width) is None,
    ensures
        spec_rows_seq(elems, n, depth, source, indent_width) is None,
    decreases n - k,
{
    if n > k {
        lemma_rows_seq_none(elems, k, n - 1, depth, source, indent_width);
    }
}

/// Whether every element has cell metrics.
fn elements_are_cells(elements: &[Expr], context: &PyFormatContext) -> (r: bool)
    requires
        forall|i: int| 0 <= i < elements@.len() ==> expr_wf(#[trigger] elements@[i], context.source@.len()),
    ensures
        r == all_cells(elements@, context.source@, context.indent_width),
{
    let mut i: usize = 0;
    while i < elements.len()
        invariant
            i <= elements@.len(),
            forall|j: int| 0 <= j < elements@.len() ==> expr_wf(#[trigger] elements@[j], context.source@.len()),
            forall|j: int| 0 <= j < i ==> (#[trigger] spec_scalar_metrics(elements@[j], context.source@, context.indent_width)) is Some,
        decreases elements@.len() - i,
    {
        proof {
            lemma_expr_wf(elements@[i as int], context.source@.len());
        }
        if formatted_scalar_metrics(&elements[i], context).is_none() {
            return false;
        }
        i = i + 1;
    }
    true
}

/// Appends the leaf rows of `expression` at `depth` to `rows` (see
/// `spec_leaf_rows`); `None` where they cannot be collected.
pub fn collect_leaf_rows<'a>(
    expression: &'a Expr,
    depth: u32,
    context: &PyFormatContext,
    rows: &mut Vec<LeafRow<'a>>,
) -> (r: Option<()>)
    requires
        expr_wf(*expression, context.source@.len()),
        rows_ok(old(rows)@, context.source@, context.indent_width),
    ensures
        rows_ok(final(rows)@, context.source@, context.indent_width),
        old(rows)@.len() <= final(rows)@.len(),
        final(rows)@.take(old(rows)@.len() as int) == old(rows)@,
        r is Some <==> spec_leaf_rows(*expression, depth, context.source@, context.indent_width) is Some,
        r is Some ==> rows_view(final(rows)@) == rows_view(old(rows)@) + spec_leaf_rows(
            *expression,
            depth,
            context.source@,
            context.indent_width,
        ).unwrap(),
    decreases expression,
{
    proof {
        lemma_expr_wf(*expression, context.source@.len());
    }
    let elements = match sequence_elements(expression) {
        Some((_, elements)) => elements,
        None => return None,
    };
    if elements_are_cells(elements, context) {
        if expression.leading_comments.len() != 0 || expression.dangling_comments.len() != 0 {
            return None;
        }
        let mut j: usize = 0;
        while j < expression.trailing_comments.len()
            invariant
                j <= expression.trailing_comments@.len(),
                rows@ == old(rows)@,
                rows_ok(rows@, context.source@, context.indent_width),
                forall|k: int| 0 <= k < j ==> !((#[trigger] expression.trailing_comments@[k]).line_position is OwnLine),
            decreases expression.trailing_comments@.len() - j,
        {
            match expression.trailing_comments[j].line_position {
                crate::ast::LinePosition::OwnLine => return None,
                crate::ast::LinePosition::EndOfLine => {},
            }
            j = j + 1;
        }
        let ghost before = rows@;
        rows.push(LeafRow { expression, elements, depth });
        assert(rows_view(rows@) =~= rows_view(before) + seq![(*expression, depth)]);
        assert(rows@.take(before.len() as int) =~= before);
        return Some(());
    }
    if expression.leading_comments.len() != 0 || expression.dangling_comments.len() != 0
        || expression.trailing_comments.len() != 0 {
        return None;
    }
    let ghost start = rows@;
    let inner = depth.saturating_add(1);
    let mut i: usize = 0;
    while i < elements.len()
        invariant
            i <= elements@.len(),
            elements@ == expression.elts@,
            expr_wf(*expression, context.source@.len()),
            is_sequence(*expression),
            !all_cells(expression.elts@, context.source@, context.indent_width),
            !has_comments(*expression),
            inner == depth.saturating_add(1),
            rows_ok(rows@, context.source@, context.indent_width),
            start == old(rows)@,
            start.len() <= rows@.len(),
            rows@.take(start.len() as int) == start,
            spec_rows_seq(elements@, i as int, inner, context.source@, context.indent_width) is Some,
            rows_view(rows@) == rows_view(start) + spec_rows_seq(
                elements@,
                i as int,
                inner,
                context.source@,
                context.indent_width,
            ).unwrap(),
        decreases elements@.len() - i,
    {
        proof {
            assert(decreases_to!(expression => expression.elts@[i as int]));
            lemma_expr_wf(*expression, context.source@.len());
        }
        let ghost mid = rows@;
        let r = collect_leaf_rows(&elements[i], inner, context, rows);
        proof {
            assert(rows@.take(start.len() as int) =~= mid.take(start.len() as int));
        }
        match r {
            Some(()) => {},
            None => {
                proof {
                    lemma_rows_seq_none(elements@, i + 1, elements@.len() as int, inner, context.source@, context.indent_width);
                }
                return None;
            },
        }
        proof {
            let front = spec_rows_seq(elements@, i as int, inner, context.source@, context.indent_width).unwrap();
            let back = spec_leaf_rows(elements@[i as int], inner, context.source@, context.indent_width).unwrap();
            assert(spec_rows_seq(elements@, i + 1, inner, context.source@, context.indent_width) == Some(front + back));
            assert(rows_view(rows@) == rows_view(mid) + back);
            assert(rows_view(mid) == rows_view(start) + front);
            assert(rows_view(start) + front + back =~= rows_view(start) + (front + back));
        }
        i = i + 1;
    }
    Some(())
}

/// The text between two elements, `source[lo..hi]`, shows that they were
/// spaced out on purpose: after its last comma there is no line break, and
/// either white space stands right before that comma, or at least two spaces
/// or a tab follow it.
pub open spec fn gap_shows_intent(source: Seq<u8>, lo: int, hi: int) -> bool {
    match rfind_in(source, 44u8, lo, hi) {
        None => false,
        Some(c) => !has_line_break(source, c + 1, hi) && ((c > lo && (source[c - 1] == 32u8
            || source[c - 1] == 9u8)) || count_in(source, 32u8, c + 1, hi) >= 2 || has_byte(
            source,
            9u8,
            c + 1,
            hi,
        )),
    }
}

/// The text between a row and its first trailing comment shows that the
/// comment was moved out on purpose: after the last comma (or from the row's
/// end) there is no line break, and more than three spaces or a tab.
pub open spec fn comment_gap_shows_intent(row: Expr, source: Seq<u8>) -> bool {
    row.trailing_comments@.len() > 0 && {
        let lo = row.range.end as int;
        let hi = row.trailing_comments@[0].range.start as int;
        let after = match rfind_in(source, 44u8, lo, hi) {
            Some(c) => c + 1,
            None => lo,
        };
        !has_line_break(source, after, hi) && (count_in(source, 32u8, after, hi) > 3 || has_byte(
            source,
            9u8,
            after,
            hi,
        ))
    }
}

/// Some gap between neighbouring cells of the row, or the gap before its
/// trailing comment, shows alignment intent.
pub open spec fn spec_row_intent(row: Expr, source: Seq<u8>) -> bool {
    (exists|i: int|
        0 <= i < row.elts@.len() - 1 && #[trigger] gap_shows_intent(
            source,
            row.elts@[i].range.end as int,
            row.elts@[i + 1].range.start as int,
        )) || comment_gap_shows_intent(row, source)
}

fn gap_has_alignment_intent(source: &[u8], lo: usize, hi: usize) -> (r: bool)
    requires
        lo <= hi <= source@.len(),
    ensures
        r == gap_shows_intent(source@, lo as int, hi as int),
{
    let comma = match rfind_byte_in(source, 44u8, lo, hi) {
        Some(c) => c,
        None => return false,
    };
    proof {
        lemma_rfind_before(source@, 44u8, hi as int);
    }
    !contains_line_break(source, comma + 1, hi) && ((comma > lo && (source[comma - 1] == 32u8
        || source[comma - 1] == 9u8)) || count_byte(source, 32u8, comma + 1, hi) >= 2
        || contains_byte(source, 9u8, comma + 1, hi))
}

/// Whether the row's first trailing comment was moved out on purpose.
pub fn row_comment_has_alignment_intent(row: &Expr, context: &PyFormatContext) -> (r: bool)
    requires
        expr_wf(*row, context.source@.len()),
    ensures
        r == comment_gap_shows_intent(*row, context.source@),
{
    proof {
        lemma_expr_wf(*row, context.source@.len());
    }
    if row.trailing_comments.len() == 0 {
        return false;
    }
    let source = context.source;
    let lo = row.range.end as usize;
    let hi = row.trailing_comments[0].range.start as usize;
    let after = match rfind_byte_in(source, 44u8, lo, hi) {
        Some(c) => {
            proof {
                lemma_rfind_before(source@, 44u8, hi as int);
            }
            c + 1
        },
        None => lo,
    };
    !contains_line_break(source, after, hi) && (count_byte(source, 32u8, after, hi) > 3
        || contains_byte(source, 9u8, after, hi))
}

/// Whether spacing in the source shows that the row was aligned on purpose.
pub fn row_has_alignment_intent(row: &LeafRow, context: &PyFormatContext) -> (r: bool)
    requires
        row_ok(*row, context.source@, context.indent_width),
    ensures
        r == spec_row_intent(*row.expression, context.source@),
{
    let elements = row.elements;
    let mut i: usize = 0;
    while i < elements.len() && i + 1 < elements.len()
        invariant
            row_ok(*row, context.source@, context.indent_width),
            elements@ == row.expression.elts@,
            i <= elements@.len(),
            forall|j: int| 0 <= j < i ==> !(#[trigger] gap_shows_intent(
                context.source@,
                elements@[j].range.end as int,
                elements@[j + 1].range.start as int,
            )),
        decreases elements@.len() - i,
    {
        proof {
            lemma_expr_wf(*row.expression, context.source@.len());
            lemma_expr_wf(elements@[i as int], context.source@.len());
            lemma_expr_wf(elements@[i + 1], context.source@.len());
        }
        if gap_has_alignment_intent(
            context.source,
            elements[i].range.end as usize,
            elements[i + 1].range.start as usize,
        ) {
            return true;
        }
        i = i + 1;
    }
    row_comment_has_alignment_intent(row.expression, context)
}

/// `a * b`, saturating at `u32::MAX` (`u32::saturating_mul`).
pub open spec fn sat_mul(a: u32, b: u32) -> u32 {
    if a * b > u32::MAX {
        u32::MAX
    } else {
        (a * b) as u32
    }
}

fn saturating_mul(a: u32, b: u32) -> (r: u32)
    ensures
        r == sat_mul(a, b),
{
    match a.checked_mul(b) {
        Some(p) => p,
        None => u32::MAX,
    }
}

/// Sum of the column widths, saturating, added up from the first column.
pub open spec fn columns_total(layouts: Seq<ColumnLayout>) -> u32
    decreases layouts.len(),
{
    if layouts.len() == 0 {
        0
    } else {
        columns_total(layouts.drop_last()).saturating_add(layout_width(layouts.last()))
    }
}

/// Width of an aligned row: its columns, `", "` between columns, and the two
/// delimiters and the trailing comma.
pub open spec fn aligned_row_width(layouts: Seq<ColumnLayout>) -> u32 {
    let gaps = if layouts.len() == 0 {
        0
    } else if layouts.len() - 1 > u32::MAX {
        u32::MAX
    } else {
        (layouts.len() - 1) as u32
    };
    columns_total(layouts).saturating_add(sat_mul(gaps, 2)).saturating_add(3)
}

/// Column at which a row at `depth` ends when aligned (saturating).
pub open spec fn aligned_row_end(depth: u32, layouts: Seq<ColumnLayout>, indent_width: u32, statement_indent: u16) -> u32 {
    (statement_indent as u32).saturating_add(sat_mul(depth, indent_width)).saturating_add(
        aligned_row_width(layouts),
    )
}

/// Every aligned row, indented to its depth, fits in the line width.
pub open spec fn spec_rows_fit(
    rows: Seq<(Expr, u32)>,
    layouts: Seq<ColumnLayout>,
    indent_width: u32,
    line_width: u16,
    statement_indent: u16,
) -> bool {
    forall|k: int|
        0 <= k < rows.len() ==> aligned_row_end((#[trigger] rows[k]).1, layouts, indent_width, statement_indent)
            <= line_width as u32
}

/// Whether every row, aligned by `column_layouts`, fits in the line width.
pub fn aligned_rows_fit(rows: &[LeafRow], column_layouts: &[ColumnLayout], context: &PyFormatContext) -> (r: bool)
    ensures
        r == spec_rows_fit(
            rows_view(rows@),
            column_layouts@,
            context.indent_width,
            context.line_width,
            context.statement_indent,
        ),
{
    let mut columns_width: u32 = 0;
    let mut c: usize = 0;
    while c < column_layouts.len()
        invariant
            c <= column_layouts@.len(),
            columns_width == columns_total(column_layouts@.take(c as int)),
        decreases column_layouts@.len() - c,
    {
        assert(column_layouts@.take(c + 1).drop_last() =~= column_layouts@.take(c as int));
        columns_width = columns_width.saturating_add(column_layouts[c].width());
        c = c + 1;
    }
    assert(column_layouts@.take(c as int) =~= column_layouts@);
    let gaps: u32 = if column_layouts.len() == 0 {
        0
    } else if column_layouts.len() - 1 > 0xFFFF_FFFFusize {
        u32::MAX
    } else {
        (column_layouts.len() - 1) as u32
    };
    let separators_width = saturating_mul(gaps, 2);
    let row_width = columns_width.saturating_add(separators_width).saturating_add(3);
    let indent_width = context.indent_width;
    let statement_indent = context.statement_indent as u32;
    let line_width = context.line_width as u32;
    let mut k: usize = 0;
    while k < rows.len()
        invariant
            k <= rows@.len(),
            row_width == aligned_row_width(column_layouts@),
            indent_width == context.indent_width,
            statement_indent == context.statement_indent as u32,
            line_width == context.line_width as u32,
            forall|j: int|
                0 <= j < k ==> aligned_row_end(
                    (#[trigger] rows_view(rows@)[j]).1,
                    column_layouts@,
                    context.indent_width,
                    context.statement_indent,
                ) <= line_width,
        decreases rows@.len() - k,
    {
        let end = statement_indent.saturating_add(saturating_mul(rows[k].depth, indent_width)).saturating_add(
            row_width,
        );
        assert(rows_view(rows@)[k as int] == row_view(rows@[k as int]));
        if end > line_width {
            return false;
        }
        k = k + 1;
    }
    true
}

/// Metrics of the cell in column `c` of row `k`.
pub open spec fn cell_metrics(rows: Seq<(Expr, u32)>, k: int, c: int, source: Seq<u8>, indent_width: u32) -> ScalarMetrics {
    spec_scalar_metrics(rows[k].0.elts@[c], source, indent_width).unwrap()
}

pub open spec fn max_u32(a: u32, b: u32) -> u32 {
    if a >= b {
        a
    } else {
        b
    }
}

/// Widest cell of column `c` among the first `n` rows.
pub open spec fn column_max_width(rows: Seq<(Expr, u32)>, c: int, n: int, source: Seq<u8>, indent_width: u32) -> u32
    decreases n,
{
    if n <= 0 {
        0
    } else {
        max_u32(
            column_max_width(rows, c, n - 1, source, indent_width),
            cell_metrics(rows, n - 1, c, source, indent_width).width,
        )
    }
}

/// Widest integer side among the numbers of column `c` in the first `n` rows.
pub open spec fn column_max_left(rows: Seq<(Expr, u32)>, c: int, n: int, source: Seq<u8>, indent_width: u32) -> u32
    decreases n,
{
    if n <= 0 {
        0
    } else {
        let prev = column_max_left(rows, c, n - 1, source, indent_width);
        match cell_metrics(rows, n - 1, c, source, indent_width).decimal {
            Some(d) => max_u32(prev, d.left_width),
            None => prev,
        }
    }
}

/// Widest decimal side among the numbers of column `c` in the first `n` rows.
pub open spec fn column_max_right(rows: Seq<(Expr, u32)>, c: int, n: int, source: Seq<u8>, indent_width: u32) -> u32
    decreases n,
{
    if n <= 0 {
        0
    } else {
        let prev = column_max_right(rows, c, n - 1, source, indent_width);
        match cell_metrics(rows, n - 1, c, source, indent_width).decimal {
            Some(d) => max_u32(prev, d.right_width),
            None => prev,
        }
    }
}

/// Every cell of column `c` in the first `n` rows is a number.
pub open spec fn column_all_numeric(rows: Seq<(Expr, u32)>, c: int, n: int, source: Seq<u8>, indent_width: u32) -> bool {
    forall|k: int| 0 <= k < n ==> (#[trigger] cell_metrics(rows, k, c, source, indent_width)).decimal is Some
}

/// Layout of column `c`: decimal-aligned to the widest sides where every
/// cell is a number, else left-aligned to the widest cell.
pub open spec fn spec_column_layout(rows: Seq<(Expr, u32)>, c: int, source: Seq<u8>, indent_width: u32) -> ColumnLayout {
    let n = rows.len() as int;
    if column_all_numeric(rows, c, n, source, indent_width) {
        ColumnLayout::Decimal {
            left_width: column_max_left(rows, c, n, source, indent_width),
            right_width: column_max_right(rows, c, n, source, indent_width),
        }
    } else {
        ColumnLayout::Left { width: column_max_width(rows, c, n, source, indent_width) }
    }
}

/// The column layouts of a rectangular literal with elements `elems`, or
/// `None` where it is not aligned: fewer than two elements; first element
/// not a sequence of at least two; elements of different shapes; leaf rows
/// that cannot be collected; no row showing alignment intent; or aligned rows
/// that would not fit in the line width.
pub open spec fn spec_aligned_column_layouts(
    elems: Seq<Expr>,
    source: Seq<u8>,
    indent_width: u32,
    line_width: u16,
    statement_indent: u16,
) -> Option<Seq<ColumnLayout>> {
    if elems.len() < 2 {
        None
    } else {
        match spec_shape(elems[0]) {
            None => None,
            Some(first) => if first.len() == 0 || first[0] < 2 || !(forall|i: int|
                1 <= i < elems.len() ==> spec_shape(#[trigger] elems[i]) == Some(first)) {
                None
            } else {
                match spec_rows_seq(elems, elems.len() as int, 1, source, indent_width) {
                    None => None,
                    Some(rows) => if rows.len() == 0 || !(exists|k: int|
                        0 <= k < rows.len() && spec_row_intent(#[trigger] rows[k].0, source)) {
                        None
                    } else {
                        let layouts = Seq::new(
                            rows[0].0.elts@.len(),
                            |c: int| spec_column_layout(rows, c, source, indent_width),
                        );
                        if spec_rows_fit(rows, layouts, indent_width, line_width, statement_indent) {
                            Some(layouts)
                        } else {
                            None
                        }
                    },
                }
            },
        }
    }
}

/// The cells of every leaf row number as many as the innermost level of the
/// shape.
proof fn lemma_leaf_rows_width(e: Expr, depth: u32, source: Seq<u8>, indent_width: u32, s: Seq<usize>)
    requires
        spec_shape(e) == Some(s),
        spec_leaf_rows(e, depth, source, indent_width) is Some,
    ensures
        s.len() >= 1,
        s.last() >= 1,
        forall|k: int|
            0 <= k < spec_leaf_rows(e, depth, source, indent_width).unwrap().len() ==> (#[trigger] spec_leaf_rows(
                e,
                depth,
                source,
                indent_width,
            ).unwrap()[k]).0.elts@.len() == s.last() && all_cells(
                spec_leaf_rows(e, depth, source, indent_width).unwrap()[k].0.elts@,
                source,
                indent_width,
            ),
    decreases e, 0int,
{
    let child = spec_shape(e.elts@[0]).unwrap();
    if all_cells(e.elts@, source, indent_width) {
        assert(spec_scalar_metrics(e.elts@[0], source, indent_width) is Some);
        assert(child =~= Seq::<usize>::empty());
        assert(s =~= seq![e.elts.len()]);
    } else {
        assert(decreases_to!(e => e.elts@));
        lemma_rows_seq_width(e.elts@, e.elts@.len() as int, depth.saturating_add(1), source, indent_width, child);
        assert(s =~= seq![e.elts.len()] + child);
        assert(child.len() >= 1);
        assert(s.last() == child.last());
    }
}

proof fn lemma_rows_seq_width(elems: Seq<Expr>, n: int, depth: u32, source: Seq<u8>, indent_width: u32, s: Seq<usize>)
    requires
        0 <= n <= elems.len(),
        forall|i: int| 0 <= i < n ==> spec_shape(#[trigger] elems[i]) == Some(s),
        spec_rows_seq(elems, n, depth, source, indent_width) is Some,
    ensures
        n > 0 ==> s.len() >= 1 && s.last() >= 1,
        forall|k: int|
            0 <= k < spec_rows_seq(elems, n, depth, source, indent_width).unwrap().len() ==> (#[trigger] spec_rows_seq(
                elems,
                n,
                depth,
                source,
                indent_width,
            ).unwrap()[k]).0.elts@.len() == s.last() && all_cells(
                spec_rows_seq(elems, n, depth, source, indent_width).unwrap()[k].0.elts@,
                source,
                indent_width,
            ),
    decreases elems, n,
{
    if n > 0 {
        lemma_rows_seq_width(elems, n - 1, depth, source, indent_width, s);
        lemma_leaf_rows_width(elems[n - 1], depth, source, indent_width, s);
        let front = spec_rows_seq(elems, n - 1, depth, source, indent_width).unwrap();
        let back = spec_leaf_rows(elems[n - 1], depth, source, indent_width).unwrap();
        assert forall|k: int| 0 <= k < (front + back).len() implies (#[trigger] (front + back)[k]).0.elts@.len() == s.last()
            && all_cells((front + back)[k].0.elts@, source, indent_width) by {
            if k < front.len() {
                assert((front + back)[k] == front[k]);
            } else {
                assert((front + back)[k] == back[k - front.len()]);
            }
        }
    }
}

/// Whether every element after the first has the shape `shape`.
fn shapes_agree(elements: &[Expr], shape: &Vec<usize>) -> (r: bool)
    ensures
        r == (forall|i: int| 1 <= i < elements@.len() ==> spec_shape(#[trigger] elements@[i]) == Some(shape@)),
{
    let mut i: usize = 1;
    while i < elements.len()
        invariant
            1 <= i,
            forall|j: int| 1 <= j < i && j < elements@.len() ==> spec_shape(#[trigger] elements@[j]) == Some(shape@),
        decreases elements@.len() - i,
    {
        match nested_sequence_shape(&elements[i]) {
            Some(other) => {
                if !same_shape(&other, shape) {
                    assert(spec_shape(elements@[i as int]) != Some(shape@));
                    return false;
                }
            },
            None => {
                assert(spec_shape(elements@[i as int]) != Some(shape@));
                return false;
            },
        }
        i = i + 1;
    }
    true
}

/// Leaf rows of all the elements, each at depth 1.
fn collect_rows<'a>(elements: &'a [Expr], context: &PyFormatContext) -> (r: Option<Vec<LeafRow<'a>>>)
    requires
        forall|i: int| 0 <= i < elements@.len() ==> expr_wf(#[trigger] elements@[i], context.source@.len()),
    ensures
        r is Some <==> spec_rows_seq(elements@, elements@.len() as int, 1, context.source@, context.indent_width) is Some,
        r matches Some(rows) ==> rows_ok(rows@, context.source@, context.indent_width) && rows_view(rows@)
            == spec_rows_seq(elements@, elements@.len() as int, 1, context.source@, context.indent_width).unwrap(),
{
    let ghost source = context.source@;
    let ghost iw = context.indent_width;
    let mut rows: Vec<LeafRow> = Vec::new();
    let mut i: usize = 0;
    while i < elements.len()
        invariant
            i <= elements@.len(),
            forall|j: int| 0 <= j < elements@.len() ==> expr_wf(#[trigger] elements@[j], context.source@.len()),
            rows_ok(rows@, source, iw),
            source == context.source@,
            iw == context.indent_width,
            spec_rows_seq(elements@, i as int, 1, source, iw) is Some,
            rows_view(rows@) == spec_rows_seq(elements@, i as int, 1, source, iw).unwrap(),
        decreases elements@.len() - i,
    {
        match collect_leaf_rows(&elements[i], 1, context, &mut rows) {
            Some(()) => {},
            None => {
                proof {
                    lemma_rows_seq_none(elements@, i + 1, elements@.len() as int, 1, source, iw);
                }
                return None;
            },
        }
        proof {
            let front = spec_rows_seq(elements@, i as int, 1, source, iw).unwrap();
            let back = spec_leaf_rows(elements@[i as int], 1, source, iw).unwrap();
            assert(spec_rows_seq(elements@, i + 1, 1, source, iw) == Some(front + back));
            assert(rows_view(rows@) =~= front + back);
        }
        i = i + 1;
    }
    Some(rows)
}

/// Whether some row shows alignment intent.
fn any_row_intent(rows: &Vec<LeafRow>, context: &PyFormatContext) -> (r: bool)
    requires
        rows_ok(rows@, context.source@, context.indent_width),
    ensures
        r == exists|k: int| 0 <= k < rows@.len() && spec_row_intent(#[trigger] rows_view(rows@)[k].0, context.source@),
{
    let mut k: usize = 0;
    while k < rows.len()
        invariant
            k <= rows@.len(),
            rows_ok(rows@, context.source@, context.indent_width),
            forall|j: int| 0 <= j < k ==> !spec_row_intent(#[trigger] rows_view(rows@)[j].0, context.source@),
        decreases rows@.len() - k,
    {
        assert(rows_view(rows@)[k as int] == row_view(rows@[k as int]));
        if row_has_alignment_intent(&rows[k], context) {
            assert(spec_row_intent(rows_view(rows@)[k as int].0, context.source@));
            return true;
        }
        k = k + 1;
    }
    false
}

/// Layout of one column over all rows.
fn column_layout(rows: &Vec<LeafRow>, column: usize, context: &PyFormatContext) -> (r: ColumnLayout)
    requires
        rows_ok(rows@, context.source@, context.indent_width),
        forall|j: int| 0 <= j < rows@.len() ==> column < (#[trigger] rows_view(rows@)[j]).0.elts@.len(),
    ensures
        r == spec_column_layout(rows_view(rows@), column as int, context.source@, context.indent_width),
{
    let ghost source = context.source@;
    let ghost iw = context.indent_width;
    let ghost all_rows = rows_view(rows@);
    let mut width: u32 = 0;
    let mut left_width: u32 = 0;
    let mut right_width: u32 = 0;
    let mut all_numeric = true;
    let mut k: usize = 0;
    while k < rows.len()
        invariant
            k <= rows@.len(),
            rows_ok(rows@, source, iw),
            source == context.source@,
            iw == context.indent_width,
            all_rows == rows_view(rows@),
            forall|j: int| 0 <= j < rows@.len() ==> column < (#[trigger] all_rows[j]).0.elts@.len(),
            width == column_max_width(all_rows, column as int, k as int, source, iw),
            left_width == column_max_left(all_rows, column as int, k as int, source, iw),
            right_width == column_max_right(all_rows, column as int, k as int, source, iw),
            all_numeric == column_all_numeric(all_rows, column as int, k as int, source, iw),
        decreases rows@.len() - k,
    {
        let row = &rows[k];
        proof {
            assert(all_rows[k as int] == row_view(rows@[k as int]));
            assert(row_ok(rows@[k as int], source, iw));
            assert(column < all_rows[k as int].0.elts@.len());
            lemma_expr_wf(*row.expression, source.len());
            lemma_expr_wf(row.elements@[column as int], source.len());
            assert(spec_scalar_metrics(row.elements@[column as int], source, iw) is Some);
        }
        let metrics = match formatted_scalar_metrics(&row.elements[column], context) {
            Some(metrics) => metrics,
            None => {
                proof {
                    assert(false);
                }
                return ColumnLayout::Left { width: 0 };
            },
        };
        assert(metrics == cell_metrics(all_rows, k as int, column as int, source, iw));
        if metrics.width > width {
            width = metrics.width;
        }
        match metrics.decimal {
            Some(decimal) => {
                if decimal.left_width > left_width {
                    left_width = decimal.left_width;
                }
                if decimal.right_width > right_width {
                    right_width = decimal.right_width;
                }
            },
            None => {
                all_numeric = false;
            },
        }
        proof {
            assert(all_numeric == column_all_numeric(all_rows, column as int, k + 1, source, iw)) by {
                if !column_all_numeric(all_rows, column as int, k as int, source, iw) {
                    let j = choose|j: int|
                        0 <= j < k && !((#[trigger] cell_metrics(all_rows, j, column as int, source, iw)).decimal is Some);
                    assert(0 <= j < k + 1);
                }
            }
        }
        k = k + 1;
    }
    if all_numeric {
        ColumnLayout::Decimal { left_width, right_width }
    } else {
        ColumnLayout::Left { width }
    }
}

/// Column layouts under which the rectangular literal with elements
/// `elements` is aligned (see `spec_aligned_column_layouts`).
pub fn aligned_column_layouts(elements: &[Expr], context: &PyFormatContext) -> (r: Option<Vec<ColumnLayout>>)
    requires
        forall|i: int| 0 <= i < elements@.len() ==> expr_wf(#[trigger] elements@[i], context.source@.len()),
    ensures
        r matches Some(v) ==> spec_aligned_column_layouts(
            elements@,
            context.source@,
            context.indent_width,
            context.line_width,
            context.statement_indent,
        ) == Some(v@),
        r matches Some(v) ==> formattable(elements@, v@.len() as int, context.source@, context.indent_width),
        r is None ==> spec_aligned_column_layouts(
            elements@,
            context.source@,
            context.indent_width,
            context.line_width,
            context.statement_indent,
        ) is None,
{
    let ghost source = context.source@;
    let ghost iw = context.indent_width;
    if elements.len() < 2 {
        return None;
    }
    let first_shape = match nested_sequence_shape(&elements[0]) {
        Some(shape) => shape,
        None => return None,
    };
    if first_shape.len() == 0 || first_shape[0] < 2 || !shapes_agree(elements, &first_shape) {
        return None;
    }
    let rows = match collect_rows(elements, context) {
        Some(rows) => rows,
        None => return None,
    };
    let ghost all_rows = rows_view(rows@);
    if !any_row_intent(&rows, context) {
        return None;
    }
    proof {
        lemma_rows_seq_width(elements@, elements@.len() as int, 1, source, iw, first_shape@);
        assert(all_rows[0] == row_view(rows@[0]));
    }
    let column_count = rows[0].elements.len();
    let mut column_layouts: Vec<ColumnLayout> = Vec::new();
    let mut column: usize = 0;
    while column < column_count
        invariant
            column <= column_count,
            rows@.len() > 0,
            column_count == all_rows[0].0.elts@.len(),
            rows_ok(rows@, source, iw),
            source == context.source@,
            iw == context.indent_width,
            all_rows == rows_view(rows@),
            forall|j: int| 0 <= j < all_rows.len() ==> (#[trigger] all_rows[j]).0.elts@.len() == column_count,
            column_layouts@ =~= Seq::new(column as nat, |c: int| spec_column_layout(all_rows, c, source, iw)),
        decreases column_count - column,
    {
        let layout = column_layout(&rows, column, context);
        column_layouts.push(layout);
        column = column + 1;
    }
    if !aligned_rows_fit(rows.as_slice(), column_layouts.as_slice(), context) {
        return None;
    }
    proof {
        lemma_aligned_formattable(
            elements@,
            context.source@,
            context.indent_width,
            context.line_width,
            context.statement_indent,
        );
    }
    Some(column_layouts)
}

/// The metrics of a number: its width is the width of its integer side plus
/// that of its decimal side.
pub proof fn lemma_numeric_metrics_sum(text: Seq<char>, indent_width: u32)
    requires
        spec_numeric_metrics(text, indent_width) is Some,
    ensures
        spec_numeric_metrics(text, indent_width).unwrap().decimal matches Some(d)
            && spec_numeric_metrics(text, indent_width).unwrap().width == d.left_width + d.right_width,
{
    let k = match find_from(text, '.', 0) {
        Some(d) => d,
        None => text.len() as int,
    };
    lemma_find_from(text, '.', 0);
    assert(decimal_split(text).0 =~= text.take(k));
    assert(decimal_split(text).1 =~= text.skip(k));
    lemma_text_width_split(text, k, indent_width);
}

/// Cell metrics with a decimal part: the width is the sum of the two sides.
pub proof fn lemma_scalar_metrics_sum(e: Expr, source: Seq<u8>, indent_width: u32)
    requires
        spec_scalar_metrics(e, source, indent_width) matches Some(m) && m.decimal is Some,
    ensures
        spec_scalar_metrics(e, source, indent_width).unwrap().width == spec_scalar_metrics(
            e,
            source,
            indent_width,
        ).unwrap().decimal.unwrap().left_width + spec_scalar_metrics(e, source, indent_width).unwrap().decimal.unwrap().right_width,
{
    lemma_numeric_metrics_sum(spec_formatted_scalar(e).unwrap(), indent_width);
}

/// A cell that is a number literal, or a unary `+` or `-` applied to one,
/// printed on one line with a width, is measured as a number: its integer
/// and decimal sides split the printed text at its first `.` (the point
/// going to the decimal side), and without a point all of it is integer side.
pub proof fn lemma_number_cells_are_decimal(e: Expr, source: Seq<u8>, indent_width: u32)
    requires
        e.kind is NumberLiteral || (e.kind matches ExprKind::UnaryOp { op, operand } && (op is UAdd
            || op is USub) && *operand is NumberLiteral),
        !has_line_break(source, e.range.start as int, e.range.end as int),
        !e.subtree_has_comments,
        e.printed matches Some(p) && !p@.contains('\n') && !p@.contains('\r') && spec_text_width(
            p@,
            indent_width,
        ) is Some,
    ensures
        ({
            let text = e.printed.unwrap()@;
            let width = spec_text_width(text, indent_width).unwrap();
            let m = spec_scalar_metrics(e, source, indent_width).unwrap();
            let d = m.decimal.unwrap();
            &&& spec_scalar_metrics(e, source, indent_width) is Some
            &&& m.width == width
            &&& m.decimal is Some
            &&& forall|k: int|
                0 <= k < text.len() && #[trigger] text[k] == '.' && (forall|j: int| 0 <= j < k ==> text[j] != '.')
                    ==> d.left_width == spec_text_width(text.take(k), indent_width).unwrap()
                    && d.right_width == spec_text_width(text.skip(k), indent_width).unwrap()
            &&& !text.contains('.') ==> d.left_width == width && d.right_width == 0
        }),
{
    let text = e.printed.unwrap()@;
    assert(spec_formatted_scalar(e) == Some(text));
    assert(spec_is_numeric(e.kind));
    lemma_find_from(text, '.', 0);
    match find_from(text, '.', 0) {
        Some(d) => {
            lemma_text_width_split(text, d, indent_width);
            assert(decimal_split(text) == (text.take(d), text.skip(d)));
            assert(text.contains('.'));
            assert forall|k: int|
                0 <= k < text.len() && #[trigger] text[k] == '.' && (forall|j: int| 0 <= j < k ==> text[j] != '.')
                implies k == d by {
                if k > d {
                    assert(text[d] != '.');
                }
            }
        },
        None => {
            assert(Seq::<char>::empty().len() == 0);
            assert(spec_text_width(Seq::<char>::empty(), indent_width) == Some(0u32)) by {
                assert(!Seq::<char>::empty().contains('\n'));
            }
            assert(!text.contains('.'));
        },
    }
}

/// A column of an aligned literal whose cells are all numbers (literals, or
/// literals behind a unary `+` or `-`) is aligned on the decimal point.
pub proof fn lemma_number_columns_are_decimal(
    elems: Seq<Expr>,
    source: Seq<u8>,
    indent_width: u32,
    line_width: u16,
    statement_indent: u16,
    c: int,
)
    requires
        spec_aligned_column_layouts(elems, source, indent_width, line_width, statement_indent) is Some,
        0 <= c < spec_aligned_column_layouts(elems, source, indent_width, line_width, statement_indent).unwrap().len(),
        forall|k: int|
            0 <= k < aligned_rows(elems, source, indent_width).len() ==> {
                let kind = (#[trigger] aligned_rows(elems, source, indent_width)[k]).0.elts@[c].kind;
                kind is NumberLiteral || (kind matches ExprKind::UnaryOp { op, operand } && (op is UAdd || op is USub)
                    && *operand is NumberLiteral)
            },
    ensures
        spec_aligned_column_layouts(elems, source, indent_width, line_width, statement_indent).unwrap()[c] is Decimal,
{
    let rows = aligned_rows(elems, source, indent_width);
    let layouts = spec_aligned_column_layouts(elems, source, indent_width, line_width, statement_indent).unwrap();
    let n = rows.len() as int;
    assert forall|k: int| 0 <= k < n implies (#[trigger] cell_metrics(rows, k, c, source, indent_width)).decimal is Some by {
        lemma_aligned_cells_fill_columns(elems, source, indent_width, line_width, statement_indent, k, c);
        let cell = rows[k].0.elts@[c];
        assert(spec_is_numeric(cell.kind));
    }
    assert(column_all_numeric(rows, c, n, source, indent_width));
    assert(layouts[c] == spec_column_layout(rows, c, source, indent_width));
}

proof fn lemma_column_maxima(rows: Seq<(Expr, u32)>, c: int, n: int, k: int, source: Seq<u8>, indent_width: u32)
    requires
        0 <= k < n,
    ensures
        cell_metrics(rows, k, c, source, indent_width).width <= column_max_width(rows, c, n, source, indent_width),
        cell_metrics(rows, k, c, source, indent_width).decimal matches Some(d) ==> d.left_width <= column_max_left(
            rows,
            c,
            n,
            source,
            indent_width,
        ) && d.right_width <= column_max_right(rows, c, n, source, indent_width),
    decreases n,
{
    if k < n - 1 {
        lemma_column_maxima(rows, c, n - 1, k, source, indent_width);
    }
}

proof fn lemma_columns_total_bounds(layouts: Seq<ColumnLayout>, c: int)
    requires
        0 <= c < layouts.len(),
    ensures
        layout_width(layouts[c]) <= columns_total(layouts),
    decreases layouts.len(),
{
    if c < layouts.len() - 1 {
        lemma_columns_total_bounds(layouts.drop_last(), c);
    }
}

/// Leaf rows of an aligned literal with elements `elems`.
pub open spec fn aligned_rows(elems: Seq<Expr>, source: Seq<u8>, indent_width: u32) -> Seq<(Expr, u32)> {
    spec_rows_seq(elems, elems.len() as int, 1, source, indent_width).unwrap()
}

/// Every cell of an aligned literal, padded as its column's layout says,
/// takes exactly the column's width; and in a decimal column the decimal
/// point of every cell lands at the same place, the column's integer width
/// from the start.
pub proof fn lemma_aligned_cells_fill_columns(
    elems: Seq<Expr>,
    source: Seq<u8>,
    indent_width: u32,
    line_width: u16,
    statement_indent: u16,
    k: int,
    c: int,
)
    requires
        spec_aligned_column_layouts(elems, source, indent_width, line_width, statement_indent) is Some,
        0 <= k < aligned_rows(elems, source, indent_width).len(),
        0 <= c < spec_aligned_column_layouts(elems, source, indent_width, line_width, statement_indent).unwrap().len(),
    ensures
        ({
            let layout = spec_aligned_column_layouts(elems, source, indent_width, line_width, statement_indent).unwrap()[c];
            let cell = cell_metrics(aligned_rows(elems, source, indent_width), k, c, source, indent_width);
            &&& c < aligned_rows(elems, source, indent_width)[k].0.elts@.len()
            &&& spec_scalar_metrics(aligned_rows(elems, source, indent_width)[k].0.elts@[c], source, indent_width) is Some
            &&& spec_leading_padding(layout, cell) + cell.width + spec_trailing_padding(layout, cell) == layout_width(layout)
            &&& (layout matches ColumnLayout::Decimal { left_width, .. } ==> cell.decimal matches Some(d)
                && spec_leading_padding(layout, cell) + d.left_width == left_width)
        }),
{
    let rows = aligned_rows(elems, source, indent_width);
    let layouts = spec_aligned_column_layouts(elems, source, indent_width, line_width, statement_indent).unwrap();
    let first = spec_shape(elems[0]).unwrap();
    lemma_rows_seq_width(elems, elems.len() as int, 1, source, indent_width, first);
    assert(rows[0].0.elts@.len() == first.last());
    assert(rows[k].0.elts@.len() == first.last());
    assert(all_cells(rows[k].0.elts@, source, indent_width));
    assert(spec_scalar_metrics(rows[k].0.elts@[c], source, indent_width) is Some);
    let n = rows.len() as int;
    lemma_column_maxima(rows, c, n, k, source, indent_width);
    let layout = layouts[c];
    let cell = cell_metrics(rows, k, c, source, indent_width);
    assert(layout == spec_column_layout(rows, c, source, indent_width));
    if column_all_numeric(rows, c, n, source, indent_width) {
        assert(cell.decimal is Some);
        lemma_scalar_metrics_sum(rows[k].0.elts@[c], source, indent_width);
        lemma_columns_total_bounds(layouts, c);
        assert(aligned_row_end(rows[0].1, layouts, indent_width, statement_indent) <= line_width as u32);
        assert(layout_width(layout) <= aligned_row_width(layouts));
        assert(layout_width(layout) <= u16::MAX);
    }
}

/// Every row of an aligned literal, indented to its depth, fits in the
/// line width.
pub proof fn lemma_aligned_rows_fit(
    elems: Seq<Expr>,
    source: Seq<u8>,
    indent_width: u32,
    line_width: u16,
    statement_indent: u16,
    k: int,
)
    requires
        spec_aligned_column_layouts(elems, source, indent_width, line_width, statement_indent) is Some,
        0 <= k < aligned_rows(elems, source, indent_width).len(),
    ensures
        aligned_row_end(
            aligned_rows(elems, source, indent_width)[k].1,
            spec_aligned_column_layouts(elems, source, indent_width, line_width, statement_indent).unwrap(),
            indent_width,
            statement_indent,
        ) <= line_width as u32,
{
}

/// A ragged literal, one whose elements differ in shape, is never aligned.
pub proof fn lemma_ragged_not_aligned(
    elems: Seq<Expr>,
    source: Seq<u8>,
    indent_width: u32,
    line_width: u16,
    statement_indent: u16,
    i: int,
)
    requires
        0 < i < elems.len(),
        spec_shape(elems[i]) != spec_shape(elems[0]),
    ensures
        spec_aligned_column_layouts(elems, source, indent_width, line_width, statement_indent) is None,
{
    if let Some(first) = spec_shape(elems[0]) {
        assert(spec_shape(elems[i]) != Some(first));
    }
}

/// Alignment is never forced: where no row shows in the source that it was
/// aligned on purpose, the literal is not aligned.
pub proof fn lemma_no_intent_not_aligned(
    elems: Seq<Expr>,
    source: Seq<u8>,
    indent_width: u32,
    line_width: u16,
    statement_indent: u16,
)
    requires
        forall|k: int|
            0 <= k < aligned_rows(elems, source, indent_width).len() ==> !spec_row_intent(
                #[trigger] aligned_rows(elems, source, indent_width)[k].0,
                source,
            ),
    ensures
        spec_aligned_column_layouts(elems, source, indent_width, line_width, statement_indent) is None,
{
    if let Some(rows) = spec_rows_seq(elems, elems.len() as int, 1, source, indent_width) {
        assert(rows == aligned_rows(elems, source, indent_width));
        assert(!(exists|k: int| 0 <= k < rows.len() && spec_row_intent(#[trigger] rows[k].0, source)));
    }
}

/// The expression reached from `e` by following `path`: at each step the
/// element at that index of a list or tuple. `None` where a step starts from
/// something else or has no such element.
pub open spec fn element_at(e: Expr, path: Seq<int>) -> Option<Expr>
    decreases path.len(),
{
    if path.len() == 0 {
        Some(e)
    } else if is_sequence(e) && 0 <= path[0] < e.elts@.len() {
        element_at(e.elts@[path[0]], path.drop_first())
    } else {
        None
    }
}

/// A cell somewhere under `e` that spans more than one source line leaves
/// `e` without leaf rows.
proof fn lemma_multiline_cell_no_rows(e: Expr, path: Seq<int>, depth: u32, source: Seq<u8>, indent_width: u32)
    requires
        path.len() > 0,
        element_at(e, path) matches Some(cell) && !is_sequence(cell) && has_line_break(
            source,
            cell.range.start as int,
            cell.range.end as int,
        ),
    ensures
        spec_leaf_rows(e, depth, source, indent_width) is None,
    decreases path.len(),
{
    let j = path[0];
    let child = e.elts@[j];
    let rest = path.drop_first();
    let n = e.elts@.len() as int;
    assert(is_sequence(e) && 0 <= j < n);
    assert(element_at(e, path) == element_at(child, rest));
    if rest.len() > 0 {
        assert(element_at(child, rest) is Some);
        assert(is_sequence(child));
    } else {
        assert(element_at(child, rest) == Some(child));
    }
    assert(spec_scalar_metrics(child, source, indent_width) is None);
    assert(!all_cells(e.elts@, source, indent_width));
    if !has_comments(e) {
        let deeper = depth.saturating_add(1);
        if rest.len() > 0 {
            lemma_multiline_cell_no_rows(child, rest, deeper, source, indent_width);
        }
        assert(spec_leaf_rows(child, deeper, source, indent_width) is None);
        assert(spec_rows_seq(e.elts@, j + 1, deeper, source, indent_width) is None);
        lemma_rows_seq_none(e.elts@, j + 1, n, deeper, source, indent_width);
    }
}

/// A cell that spans more than one source line keeps the literal from being
/// aligned, at whatever depth of nesting it stands: `path` leads from the
/// element `elems[i]` of the literal, through lists and tuples, to the cell.
pub proof fn lemma_multiline_cell_not_aligned(
    elems: Seq<Expr>,
    source: Seq<u8>,
    indent_width: u32,
    line_width: u16,
    statement_indent: u16,
    i: int,
    path: Seq<int>,
)
    requires
        0 <= i < elems.len(),
        path.len() > 0,
        element_at(elems[i], path) matches Some(cell) && !is_sequence(cell) && has_line_break(
            source,
            cell.range.start as int,
            cell.range.end as int,
        ),
    ensures
        spec_aligned_column_layouts(elems, source, indent_width, line_width, statement_indent) is None,
{
    lemma_multiline_cell_no_rows(elems[i], path, 1, source, indent_width);
    assert(spec_rows_seq(elems, i + 1, 1, source, indent_width) is None);
    lemma_rows_seq_none(elems, i + 1, elems.len() as int, 1, source, indent_width);
}

/// One step of writing an aligned sequence: a delimiter, a comma, a space,
/// padding of so many spaces, an element formatted as usual, a hard line
/// break, the start or end of an indented block, or the trailing comments of
/// an element.
#[derive(Debug)]
pub enum FormatPiece<'a> {
    Open(SequenceKind),
    Close(SequenceKind),
    Comma,
    Space,
    Padding(u32),
    Cell(&'a Expr),
    HardLineBreak,
    StartIndent,
    EndIndent,
    TrailingComments(&'a Expr),
}

/// A `FormatPiece` with the expression it refers to taken as a value.
pub enum PieceView {
    Open(SequenceKind),
    Close(SequenceKind),
    Comma,
    Space,
    Padding(u32),
    Cell(Expr),
    HardLineBreak,
    StartIndent,
    EndIndent,
    TrailingComments(Expr),
}

pub open spec fn piece_view(piece: FormatPiece) -> PieceView {
    match piece {
        FormatPiece::Open(kind) => PieceView::Open(kind),
        FormatPiece::Close(kind) => PieceView::Close(kind),
        FormatPiece::Comma => PieceView::Comma,
        FormatPiece::Space => PieceView::Space,
        FormatPiece::Padding(n) => PieceView::Padding(n),
        FormatPiece::Cell(e) => PieceView::Cell(*e),
        FormatPiece::HardLineBreak => PieceView::HardLineBreak,
        FormatPiece::StartIndent => PieceView::StartIndent,
        FormatPiece::EndIndent => PieceView::EndIndent,
        FormatPiece::TrailingComments(e) => PieceView::TrailingComments(*e),
    }
}

pub open spec fn pieces_view(pieces: Seq<FormatPiece>) -> Seq<PieceView> {
    pieces.map_values(|p: FormatPiece| piece_view(p))
}

/// Kind of a list or tuple.
pub open spec fn sequence_kind(e: Expr) -> SequenceKind {
    if e.kind is List {
        SequenceKind::List
    } else {
        SequenceKind::Tuple
    }
}

/// The first `n` cells of a leaf row: each padded before and after as its
/// column's layout says, and followed by `", "` unless it is the last.
pub open spec fn spec_row_pieces(
    elems: Seq<Expr>,
    layouts: Seq<ColumnLayout>,
    n: int,
    source: Seq<u8>,
    indent_width: u32,
) -> Seq<PieceView>
    decreases n,
{
    if n <= 0 {
        Seq::empty()
    } else {
        let i = n - 1;
        let metrics = spec_scalar_metrics(elems[i], source, indent_width).unwrap();
        let layout = layouts[i];
        spec_row_pieces(elems, layouts, i, source, indent_width) + seq![
            PieceView::Padding(spec_leading_padding(layout, metrics)),
            PieceView::Cell(elems[i]),
            PieceView::Padding(spec_trailing_padding(layout, metrics)),
        ] + if i + 1 < elems.len() {
            seq![PieceView::Comma, PieceView::Space]
        } else {
            Seq::empty()
        }
    }
}

/// An aligned sequence with elements `elems`: a leaf row on one line
/// between its delimiters; otherwise each element, itself aligned, on a
/// line of its own in an indented block, followed by a comma and its trailing
/// comments.
pub open spec fn spec_aligned_pieces(
    kind: SequenceKind,
    elems: Seq<Expr>,
    layouts: Seq<ColumnLayout>,
    source: Seq<u8>,
    indent_width: u32,
) -> Seq<PieceView>
    decreases elems, elems.len() + 1,
{
    if all_cells(elems, source, indent_width) {
        seq![PieceView::Open(kind)] + spec_row_pieces(elems, layouts, elems.len() as int, source, indent_width)
            + seq![PieceView::Close(kind)]
    } else {
        seq![PieceView::Open(kind), PieceView::StartIndent, PieceView::HardLineBreak] + spec_nested_pieces(
            elems,
            layouts,
            elems.len() as int,
            source,
            indent_width,
        ) + seq![PieceView::EndIndent, PieceView::HardLineBreak, PieceView::Close(kind)]
    }
}

/// The first `n` nested elements, each aligned, separated by hard line
/// breaks and each followed by a comma and its trailing comments.
pub open spec fn spec_nested_pieces(
    elems: Seq<Expr>,
    layouts: Seq<ColumnLayout>,
    n: int,
    source: Seq<u8>,
    indent_width: u32,
) -> Seq<PieceView>
    decreases elems, n,
{
    if n <= 0 || n > elems.len() {
        Seq::empty()
    } else {
        let e = elems[n - 1];
        spec_nested_pieces(elems, layouts, n - 1, source, indent_width) + (if n - 1 > 0 {
            seq![PieceView::HardLineBreak]
        } else {
            Seq::empty()
        }) + spec_aligned_pieces(sequence_kind(e), e.elts@, layouts, source, indent_width) + seq![
            PieceView::Comma,
            PieceView::TrailingComments(e),
        ]
    }
}

/// Reads the delimiters of `pieces` from the left, `open` holding the kinds
/// of the sequences opened and not yet closed, innermost last: an opening
/// delimiter pushes its kind, a closing one pops the innermost kind where it
/// is of that kind. `None` where a closing delimiter closes nothing or a
/// sequence of the other kind.
pub open spec fn match_delimiters(pieces: Seq<PieceView>, open: Seq<SequenceKind>) -> Option<Seq<SequenceKind>>
    decreases pieces.len(),
{
    if pieces.len() == 0 {
        Some(open)
    } else {
        let rest = pieces.drop_first();
        match pieces[0] {
            PieceView::Open(k) => match_delimiters(rest, open.push(k)),
            PieceView::Close(k) => if open.len() > 0 && open.last() == k {
                match_delimiters(rest, open.drop_last())
            } else {
                None
            },
            _ => match_delimiters(rest, open),
        }
    }
}

proof fn lemma_match_delimiters_concat(a: Seq<PieceView>, b: Seq<PieceView>, open: Seq<SequenceKind>)
    ensures
        match_delimiters(a + b, open) == (match match_delimiters(a, open) {
            Some(t) => match_delimiters(b, t),
            None => None,
        }),
    decreases a.len(),
{
    if a.len() == 0 {
        assert(a + b =~= b);
    } else {
        assert((a + b).drop_first() =~= a.drop_first() + b);
        assert((a + b)[0] == a[0]);
        match a[0] {
            PieceView::Open(k) => lemma_match_delimiters_concat(a.drop_first(), b, open.push(k)),
            PieceView::Close(k) => if open.len() > 0 && open.last() == k {
                lemma_match_delimiters_concat(a.drop_first(), b, open.drop_last());
            },
            _ => lemma_match_delimiters_concat(a.drop_first(), b, open),
        }
    }
}

/// Pieces without delimiters leave the open sequences as they are.
proof fn lemma_match_no_delimiters(p: Seq<PieceView>, open: Seq<SequenceKind>)
    requires
        forall|i: int| 0 <= i < p.len() ==> !(#[trigger] p[i] is Open) && !(p[i] is Close),
    ensures
        match_delimiters(p, open) == Some(open),
    decreases p.len(),
{
    if p.len() > 0 {
        assert(!(p[0] is Open) && !(p[0] is Close));
        assert forall|i: int| 0 <= i < p.drop_first().len() implies !(#[trigger] p.drop_first()[i] is Open) && !(
        p.drop_first()[i] is Close) by {
            assert(p.drop_first()[i] == p[i + 1]);
        }
        lemma_match_no_delimiters(p.drop_first(), open);
    }
}

proof fn lemma_row_pieces_no_delimiters(
    elems: Seq<Expr>,
    layouts: Seq<ColumnLayout>,
    n: int,
    source: Seq<u8>,
    indent_width: u32,
)
    ensures
        forall|i: int|
            0 <= i < spec_row_pieces(elems, layouts, n, source, indent_width).len() ==> !(
            #[trigger] spec_row_pieces(elems, layouts, n, source, indent_width)[i] is Open) && !(spec_row_pieces(
                elems,
                layouts,
                n,
                source,
                indent_width,
            )[i] is Close),
    decreases n,
{
    if n > 0 {
        lemma_row_pieces_no_delimiters(elems, layouts, n - 1, source, indent_width);
    }
}

proof fn lemma_aligned_pieces_match(
    kind: SequenceKind,
    elems: Seq<Expr>,
    layouts: Seq<ColumnLayout>,
    source: Seq<u8>,
    indent_width: u32,
    open: Seq<SequenceKind>,
)
    ensures
        match_delimiters(spec_aligned_pieces(kind, elems, layouts, source, indent_width), open) == Some(open),
    decreases elems, elems.len() + 1,
{
    let inner = open.push(kind);
    assert(inner.drop_last() =~= open);
    if all_cells(elems, source, indent_width) {
        let row = spec_row_pieces(elems, layouts, elems.len() as int, source, indent_width);
        lemma_row_pieces_no_delimiters(elems, layouts, elems.len() as int, source, indent_width);
        lemma_match_no_delimiters(row, inner);
        lemma_match_delimiters_concat(seq![PieceView::Open(kind)], row, open);
        lemma_match_delimiters_concat(seq![PieceView::Open(kind)] + row, seq![PieceView::Close(kind)], open);
        reveal_with_fuel(match_delimiters, 2);
    } else {
        let head = seq![PieceView::Open(kind), PieceView::StartIndent, PieceView::HardLineBreak];
        let nested = spec_nested_pieces(elems, layouts, elems.len() as int, source, indent_width);
        let tail = seq![PieceView::EndIndent, PieceView::HardLineBreak, PieceView::Close(kind)];
        lemma_nested_pieces_match(elems, layouts, elems.len() as int, source, indent_width, inner);
        lemma_match_delimiters_concat(head, nested, open);
        lemma_match_delimiters_concat(head + nested, tail, open);
        reveal_with_fuel(match_delimiters, 4);
    }
}

proof fn lemma_nested_pieces_match(
    elems: Seq<Expr>,
    layouts: Seq<ColumnLayout>,
    n: int,
    source: Seq<u8>,
    indent_width: u32,
    open: Seq<SequenceKind>,
)
    ensures
        match_delimiters(spec_nested_pieces(elems, layouts, n, source, indent_width), open) == Some(open),
    decreases elems, n,
{
    if n <= 0 || n > elems.len() {
        reveal_with_fuel(match_delimiters, 1);
    } else {
        let e = elems[n - 1];
        let front = spec_nested_pieces(elems, layouts, n - 1, source, indent_width);
        let gap: Seq<PieceView> = if n - 1 > 0 {
            seq![PieceView::HardLineBreak]
        } else {
            Seq::empty()
        };
        let element = spec_aligned_pieces(sequence_kind(e), e.elts@, layouts, source, indent_width);
        let after = seq![PieceView::Comma, PieceView::TrailingComments(e)];
        lemma_nested_pieces_match(elems, layouts, n - 1, source, indent_width, open);
        lemma_aligned_pieces_match(sequence_kind(e), e.elts@, layouts, source, indent_width, open);
        reveal_with_fuel(match_delimiters, 3);
        lemma_match_delimiters_concat(front, gap, open);
        lemma_match_delimiters_concat(front + gap, element, open);
        lemma_match_delimiters_concat(front + gap + element, after, open);
    }
}

/// Every sequence written aligned, of either kind and whether a leaf row or
/// nested, is opened by the delimiter of its kind as its first piece and
/// closed by the delimiter of its kind as its last; the delimiters between
/// them pair up, each closing one of the kind of the innermost sequence
/// still open.
pub proof fn lemma_aligned_pieces_delimited(
    kind: SequenceKind,
    elems: Seq<Expr>,
    layouts: Seq<ColumnLayout>,
    source: Seq<u8>,
    indent_width: u32,
)
    ensures
        ({
            let p = spec_aligned_pieces(kind, elems, layouts, source, indent_width);
            &&& p.len() >= 2
            &&& p[0] == PieceView::Open(kind)
            &&& p.last() == PieceView::Close(kind)
            &&& match_delimiters(p.subrange(1, p.len() - 1), Seq::empty()) == Some(Seq::<SequenceKind>::empty())
            &&& match_delimiters(p, Seq::empty()) == Some(Seq::<SequenceKind>::empty())
        }),
{
    let p = spec_aligned_pieces(kind, elems, layouts, source, indent_width);
    let none = Seq::<SequenceKind>::empty();
    lemma_aligned_pieces_match(kind, elems, layouts, source, indent_width, none);
    let middle = p.subrange(1, p.len() - 1);
    if all_cells(elems, source, indent_width) {
        let row = spec_row_pieces(elems, layouts, elems.len() as int, source, indent_width);
        assert(middle =~= row);
        lemma_row_pieces_no_delimiters(elems, layouts, elems.len() as int, source, indent_width);
        lemma_match_no_delimiters(row, none);
    } else {
        let nested = spec_nested_pieces(elems, layouts, elems.len() as int, source, indent_width);
        let head = seq![PieceView::StartIndent, PieceView::HardLineBreak];
        let tail = seq![PieceView::EndIndent, PieceView::HardLineBreak];
        assert(middle =~= head + nested + tail);
        lemma_nested_pieces_match(elems, layouts, elems.len() as int, source, indent_width, none);
        lemma_match_delimiters_concat(head, nested, none);
        lemma_match_delimiters_concat(head + nested, tail, none);
        reveal_with_fuel(match_delimiters, 3);
    }
}

/// The delimiters among `pieces`, in order.
pub open spec fn delimiters_of(pieces: Seq<PieceView>) -> Seq<PieceView>
    decreases pieces.len(),
{
    if pieces.len() == 0 {
        Seq::empty()
    } else {
        (if pieces[0] is Open || pieces[0] is Close {
            seq![pieces[0]]
        } else {
            Seq::empty()
        }) + delimiters_of(pieces.drop_first())
    }
}

/// The delimiters that a sequence of `kind` with elements `elems` is
/// written with: its own around, unless its elements are cells, those of
/// each element in turn, an element that is a list taking brackets and any
/// other parentheses.
pub open spec fn tree_delimiters(
    kind: SequenceKind,
    elems: Seq<Expr>,
    source: Seq<u8>,
    indent_width: u32,
) -> Seq<PieceView>
    decreases elems, elems.len() + 1,
{
    seq![PieceView::Open(kind)] + (if all_cells(elems, source, indent_width) {
        Seq::empty()
    } else {
        elements_delimiters(elems, elems.len() as int, source, indent_width)
    }) + seq![PieceView::Close(kind)]
}

/// The delimiters of the first `n` elements, each written as a sequence.
pub open spec fn elements_delimiters(elems: Seq<Expr>, n: int, source: Seq<u8>, indent_width: u32) -> Seq<PieceView>
    decreases elems, n,
{
    if n <= 0 || n > elems.len() {
        Seq::empty()
    } else {
        elements_delimiters(elems, n - 1, source, indent_width) + tree_delimiters(
            if elems[n - 1].kind is List {
                SequenceKind::List
            } else {
                SequenceKind::Tuple
            },
            elems[n - 1].elts@,
            source,
            indent_width,
        )
    }
}

proof fn lemma_delimiters_of_concat(a: Seq<PieceView>, b: Seq<PieceView>)
    ensures
        delimiters_of(a + b) == delimiters_of(a) + delimiters_of(b),
    decreases a.len(),
{
    if a.len() == 0 {
        assert(a + b =~= b);
        assert(delimiters_of(a) + delimiters_of(b) =~= delimiters_of(b));
    } else {
        assert((a + b).drop_first() =~= a.drop_first() + b);
        assert((a + b)[0] == a[0]);
        lemma_delimiters_of_concat(a.drop_first(), b);
        let first: Seq<PieceView> = if a[0] is Open || a[0] is Close {
            seq![a[0]]
        } else {
            Seq::empty()
        };
        assert(first + (delimiters_of(a.drop_first()) + delimiters_of(b)) =~= (first + delimiters_of(
            a.drop_first(),
        )) + delimiters_of(b));
    }
}

proof fn lemma_delimiters_of_none(p: Seq<PieceView>)
    requires
        forall|i: int| 0 <= i < p.len() ==> !(#[trigger] p[i] is Open) && !(p[i] is Close),
    ensures
        delimiters_of(p) == Seq::<PieceView>::empty(),
    decreases p.len(),
{
    if p.len() > 0 {
        assert(!(p[0] is Open) && !(p[0] is Close));
        assert forall|i: int| 0 <= i < p.drop_first().len() implies !(#[trigger] p.drop_first()[i] is Open) && !(
        p.drop_first()[i] is Close) by {
            assert(p.drop_first()[i] == p[i + 1]);
        }
        lemma_delimiters_of_none(p.drop_first());
        assert(delimiters_of(p) =~= Seq::<PieceView>::empty() + Seq::<PieceView>::empty());
    }
}

/// The delimiters of an aligned sequence, read in order, are exactly those
/// of its tree: its own kind's around the whole, and inside, each nested
/// list between brackets and each nested tuple between parentheses, in the
/// order of the elements.
pub proof fn lemma_aligned_pieces_tree(
    kind: SequenceKind,
    elems: Seq<Expr>,
    layouts: Seq<ColumnLayout>,
    source: Seq<u8>,
    indent_width: u32,
)
    ensures
        delimiters_of(spec_aligned_pieces(kind, elems, layouts, source, indent_width)) == tree_delimiters(
            kind,
            elems,
            source,
            indent_width,
        ),
    decreases elems, elems.len() + 1,
{
    reveal_with_fuel(delimiters_of, 4);
    let open = seq![PieceView::Open(kind)];
    let close = seq![PieceView::Close(kind)];
    assert(delimiters_of(open) =~= open);
    assert(delimiters_of(close) =~= close);
    if all_cells(elems, source, indent_width) {
        let row = spec_row_pieces(elems, layouts, elems.len() as int, source, indent_width);
        lemma_row_pieces_no_delimiters(elems, layouts, elems.len() as int, source, indent_width);
        lemma_delimiters_of_none(row);
        lemma_delimiters_of_concat(open, row);
        lemma_delimiters_of_concat(open + row, close);
        assert(tree_delimiters(kind, elems, source, indent_width) =~= open + Seq::<PieceView>::empty() + close);
    } else {
        let head = seq![PieceView::Open(kind), PieceView::StartIndent, PieceView::HardLineBreak];
        let nested = spec_nested_pieces(elems, layouts, elems.len() as int, source, indent_width);
        let tail = seq![PieceView::EndIndent, PieceView::HardLineBreak, PieceView::Close(kind)];
        assert(delimiters_of(head) =~= open);
        assert(delimiters_of(tail) =~= close);
        lemma_nested_pieces_tree(elems, layouts, elems.len() as int, source, indent_width);
        lemma_delimiters_of_concat(head, nested);
        lemma_delimiters_of_concat(head + nested, tail);
    }
}

proof fn lemma_nested_pieces_tree(
    elems: Seq<Expr>,
    layouts: Seq<ColumnLayout>,
    n: int,
    source: Seq<u8>,
    indent_width: u32,
)
    ensures
        delimiters_of(spec_nested_pieces(elems, layouts, n, source, indent_width)) == elements_delimiters(
            elems,
            n,
            source,
            indent_width,
        ),
    decreases elems, n,
{
    reveal_with_fuel(delimiters_of, 3);
    if n <= 0 || n > elems.len() {
    } else {
        let e = elems[n - 1];
        let front = spec_nested_pieces(elems, layouts, n - 1, source, indent_width);
        let gap: Seq<PieceView> = if n - 1 > 0 {
            seq![PieceView::HardLineBreak]
        } else {
            Seq::empty()
        };
        let element = spec_aligned_pieces(sequence_kind(e), e.elts@, layouts, source, indent_width);
        let after = seq![PieceView::Comma, PieceView::TrailingComments(e)];
        lemma_nested_pieces_tree(elems, layouts, n - 1, source, indent_width);
        lemma_aligned_pieces_tree(sequence_kind(e), e.elts@, layouts, source, indent_width);
        assert(delimiters_of(gap) =~= Seq::<PieceView>::empty());
        assert(delimiters_of(after) =~= Seq::<PieceView>::empty());
        lemma_delimiters_of_concat(front, gap);
        lemma_delimiters_of_concat(front + gap, element);
        lemma_delimiters_of_concat(front + gap + element, after);
        assert(sequence_kind(e) == (if e.kind is List {
            SequenceKind::List
        } else {
            SequenceKind::Tuple
        }));
        assert(delimiters_of(spec_nested_pieces(elems, layouts, n, source, indent_width)) =~= elements_delimiters(
            elems,
            n - 1,
            source,
            indent_width,
        ) + tree_delimiters(sequence_kind(e), e.elts@, source, indent_width));
    }
}

/// The elements can be written aligned to `column_count` columns: a leaf
/// row has no more cells than columns; otherwise every element is a sequence
/// that can be written so in turn.
#[verifier::opaque]
pub open spec fn formattable(elems: Seq<Expr>, column_count: int, source: Seq<u8>, indent_width: u32) -> bool
    decreases elems,
{
    if all_cells(elems, source, indent_width) {
        elems.len() <= column_count
    } else {
        forall|i: int|
            0 <= i < elems.len() ==> is_sequence(#[trigger] elems[i]) && formattable(
                elems[i].elts@,
                column_count,
                source,
                indent_width,
            )
    }
}

proof fn lemma_formattable_element(elems: Seq<Expr>, column_count: int, source: Seq<u8>, indent_width: u32, i: int)
    requires
        formattable(elems, column_count, source, indent_width),
        !all_cells(elems, source, indent_width),
        0 <= i < elems.len(),
    ensures
        is_sequence(elems[i]),
        formattable(elems[i].elts@, column_count, source, indent_width),
{
    reveal(formattable);
}

proof fn lemma_formattable_leaf(elems: Seq<Expr>, column_count: int, source: Seq<u8>, indent_width: u32)
    requires
        formattable(elems, column_count, source, indent_width),
        all_cells(elems, source, indent_width),
    ensures
        elems.len() <= column_count,
{
    reveal(formattable);
}

proof fn lemma_nested_pieces_step(elems: Seq<Expr>, layouts: Seq<ColumnLayout>, i: int, source: Seq<u8>, indent_width: u32)
    requires
        0 <= i < elems.len(),
    ensures
        spec_nested_pieces(elems, layouts, i + 1, source, indent_width) == spec_nested_pieces(
            elems,
            layouts,
            i,
            source,
            indent_width,
        ) + (if i > 0 {
            seq![PieceView::HardLineBreak]
        } else {
            Seq::<PieceView>::empty()
        }) + spec_aligned_pieces(sequence_kind(elems[i]), elems[i].elts@, layouts, source, indent_width) + seq![
            PieceView::Comma,
            PieceView::TrailingComments(elems[i]),
        ],
{
}

fn push_piece<'a>(f: &mut Vec<FormatPiece<'a>>, piece: FormatPiece<'a>)
    ensures
        pieces_view(final(f)@) == pieces_view(old(f)@).push(piece_view(piece)),
{
    f.push(piece);
    assert(pieces_view(f@) =~= pieces_view(old(f)@).push(piece_view(piece)));
}

/// Writes the cells of a leaf row, each padded to its column.
fn format_row_cells<'a>(
    elements: &'a [Expr],
    column_layouts: &[ColumnLayout],
    context: &PyFormatContext,
    f: &mut Vec<FormatPiece<'a>>,
)
    requires
        all_cells(elements@, context.source@, context.indent_width),
        elements@.len() <= column_layouts@.len(),
        forall|i: int| 0 <= i < elements@.len() ==> expr_wf(#[trigger] elements@[i], context.source@.len()),
    ensures
        pieces_view(final(f)@) == pieces_view(old(f)@) + spec_row_pieces(
            elements@,
            column_layouts@,
            elements@.len() as int,
            context.source@,
            context.indent_width,
        ),
{
    let ghost source = context.source@;
    let ghost iw = context.indent_width;
    let ghost start = pieces_view(f@);
    let mut index: usize = 0;
    while index < elements.len()
        invariant
            index <= elements@.len(),
            elements@.len() <= column_layouts@.len(),
            all_cells(elements@, source, iw),
            forall|i: int| 0 <= i < elements@.len() ==> expr_wf(#[trigger] elements@[i], context.source@.len()),
            source == context.source@,
            iw == context.indent_width,
            pieces_view(f@) == start + spec_row_pieces(elements@, column_layouts@, index as int, source, iw),
        decreases elements@.len() - index,
    {
        assert(spec_scalar_metrics(elements@[index as int], source, iw) is Some);
        proof {
            lemma_expr_wf(elements@[index as int], source.len());
        }
        let metrics = match formatted_scalar_metrics(&elements[index], context) {
            Some(metrics) => metrics,
            None => {
                proof {
                    assert(false);
                }
                return;
            },
        };
        let layout = column_layouts[index];
        push_piece(f, FormatPiece::Padding(layout.leading_padding(metrics)));
        push_piece(f, FormatPiece::Cell(&elements[index]));
        push_piece(f, FormatPiece::Padding(layout.trailing_padding(metrics)));
        if index + 1 < elements.len() {
            push_piece(f, FormatPiece::Comma);
            push_piece(f, FormatPiece::Space);
        }
        assert(pieces_view(f@) =~= start + spec_row_pieces(elements@, column_layouts@, index + 1, source, iw));
        index = index + 1;
    }
}

/// Writes the elements of a sequence that is not a leaf row, each on a line
/// of its own.
fn format_nested_elements<'a>(
    elements: &'a [Expr],
    column_layouts: &[ColumnLayout],
    context: &PyFormatContext,
    f: &mut Vec<FormatPiece<'a>>,
)
    requires
        !all_cells(elements@, context.source@, context.indent_width),
        formattable(elements@, column_layouts@.len() as int, context.source@, context.indent_width),
        forall|i: int| 0 <= i < elements@.len() ==> expr_wf(#[trigger] elements@[i], context.source@.len()),
    ensures
        pieces_view(final(f)@) == pieces_view(old(f)@) + spec_nested_pieces(
            elements@,
            column_layouts@,
            elements@.len() as int,
            context.source@,
            context.indent_width,
        ),
    decreases elements@, 1int,
{
    let ghost source = context.source@;
    let ghost iw = context.indent_width;
    let ghost prefix = pieces_view(f@);
    assert(prefix =~= prefix + spec_nested_pieces(elements@, column_layouts@, 0, source, iw));
    let mut index: usize = 0;
    while index < elements.len()
        invariant
            index <= elements@.len(),
            !all_cells(elements@, source, iw),
            formattable(elements@, column_layouts@.len() as int, source, iw),
            forall|i: int| 0 <= i < elements@.len() ==> expr_wf(#[trigger] elements@[i], context.source@.len()),
            source == context.source@,
            iw == context.indent_width,
            pieces_view(f@) == prefix + spec_nested_pieces(elements@, column_layouts@, index as int, source, iw),
        decreases elements@.len() - index,
    {
        proof {
            lemma_formattable_element(elements@, column_layouts@.len() as int, source, iw, index as int);
            assert(decreases_to!(elements@ => elements@[index as int].elts@)) by {
                assert(decreases_to!(elements@ => elements@[index as int]));
                assert(decreases_to!(elements@[index as int] => elements@[index as int].elts));
            }
        }
        format_nested_element(&elements[index], index, column_layouts, context, f);
        proof {
            lemma_nested_pieces_step(elements@, column_layouts@, index as int, source, iw);
            assert(pieces_view(f@) =~= prefix + spec_nested_pieces(elements@, column_layouts@, index + 1, source, iw));
        }
        index = index + 1;
    }
}

/// Writes an aligned sequence (see `spec_aligned_pieces`): a leaf row with
/// each cell padded to its column, otherwise each nested sequence on a line
/// of its own.
pub fn format_aligned_sequence<'a>(
    kind: SequenceKind,
    elements: &'a [Expr],
    column_layouts: &[ColumnLayout],
    context: &PyFormatContext,
    f: &mut Vec<FormatPiece<'a>>,
)
    requires
        formattable(elements@, column_layouts@.len() as int, context.source@, context.indent_width),
        forall|i: int| 0 <= i < elements@.len() ==> expr_wf(#[trigger] elements@[i], context.source@.len()),
    ensures
        pieces_view(final(f)@) == pieces_view(old(f)@) + spec_aligned_pieces(
            kind,
            elements@,
            column_layouts@,
            context.source@,
            context.indent_width,
        ),
    decreases elements@, 2int,
{
    let ghost start = pieces_view(f@);
    let is_leaf_row = elements_are_cells(elements, context);
    push_piece(f, FormatPiece::Open(kind));
    if is_leaf_row {
        proof {
            lemma_formattable_leaf(elements@, column_layouts@.len() as int, context.source@, context.indent_width);
        }
        format_row_cells(elements, column_layouts, context, f);
        push_piece(f, FormatPiece::Close(kind));
    } else {
        push_piece(f, FormatPiece::StartIndent);
        push_piece(f, FormatPiece::HardLineBreak);
        format_nested_elements(elements, column_layouts, context, f);
        push_piece(f, FormatPiece::EndIndent);
        push_piece(f, FormatPiece::HardLineBreak);
        push_piece(f, FormatPiece::Close(kind));
    }
    assert(pieces_view(f@) =~= start + spec_aligned_pieces(
        kind,
        elements@,
        column_layouts@,
        context.source@,
        context.indent_width,
    ));
}

/// Writes one element of a sequence that is not a leaf row: a hard line
/// break before all but the first, the element aligned, a comma, and its
/// trailing comments.
fn format_nested_element<'a>(
    element: &'a Expr,
    index: usize,
    column_layouts: &[ColumnLayout],
    context: &PyFormatContext,
    f: &mut Vec<FormatPiece<'a>>,
)
    requires
        is_sequence(*element),
        formattable(element.elts@, column_layouts@.len() as int, context.source@, context.indent_width),
        expr_wf(*element, context.source@.len()),
    ensures
        pieces_view(final(f)@) == pieces_view(old(f)@) + (if index > 0 {
            seq![PieceView::HardLineBreak]
        } else {
            Seq::<PieceView>::empty()
        }) + spec_aligned_pieces(
            sequence_kind(*element),
            element.elts@,
            column_layouts@,
            context.source@,
            context.indent_width,
        ) + seq![PieceView::Comma, PieceView::TrailingComments(*element)],
    decreases element.elts@, 3int,
{
    let ghost before = pieces_view(f@);
    if index > 0 {
        push_piece(f, FormatPiece::HardLineBreak);
    }
    let ghost mid = pieces_view(f@);
    proof {
        lemma_expr_wf(*element, context.source@.len());
    }
    let (nested_kind, nested_elements) = match sequence_elements(element) {
        Some(pair) => pair,
        None => {
            proof {
                assert(false);
            }
            return;
        },
    };
    format_aligned_sequence(nested_kind, nested_elements, column_layouts, context, f);
    let ghost inner = pieces_view(f@);
    push_piece(f, FormatPiece::Comma);
    push_piece(f, FormatPiece::TrailingComments(element));
    assert(nested_kind == sequence_kind(*element));
    assert(pieces_view(f@) =~= pieces_view(old(f)@) + (if index > 0 {
        seq![PieceView::HardLineBreak]
    } else {
        Seq::<PieceView>::empty()
    }) + spec_aligned_pieces(
        sequence_kind(*element),
        element.elts@,
        column_layouts@,
        context.source@,
        context.indent_width,
    ) + seq![PieceView::Comma, PieceView::TrailingComments(*element)]);
}

/// Once the rows of `n` elements are collected, those of each of them are.
proof fn lemma_rows_seq_each(elems: Seq<Expr>, n: int, i: int, depth: u32, source: Seq<u8>, indent_width: u32)
    requires
        0 <= i < n <= elems.len(),
        spec_rows_seq(elems, n, depth, source, indent_width) is Some,
    ensures
        spec_leaf_rows(elems[i], depth, source, indent_width) is Some,
    decreases n,
{
    if i < n - 1 {
        lemma_rows_seq_each(elems, n - 1, i, depth, source, indent_width);
    }
}

/// A nested sequence whose leaf rows can be collected can be written
/// aligned to as many columns as the innermost level of its shape.
proof fn lemma_leaf_rows_formattable(e: Expr, depth: u32, source: Seq<u8>, indent_width: u32, s: Seq<usize>)
    requires
        spec_shape(e) == Some(s),
        spec_leaf_rows(e, depth, source, indent_width) is Some,
    ensures
        s.len() >= 1,
        formattable(e.elts@, s.last() as int, source, indent_width),
    decreases e,
{
    reveal(formattable);
    lemma_leaf_rows_width(e, depth, source, indent_width, s);
    let child = spec_shape(e.elts@[0]).unwrap();
    if all_cells(e.elts@, source, indent_width) {
        assert(spec_scalar_metrics(e.elts@[0], source, indent_width) is Some);
        assert(child =~= Seq::<usize>::empty());
        assert(s =~= seq![e.elts.len()]);
    } else {
        assert(s =~= seq![e.elts.len()] + child);
        let n = e.elts@.len() as int;
        assert forall|i: int| 0 <= i < n implies is_sequence(#[trigger] e.elts@[i]) && formattable(
            e.elts@[i].elts@,
            s.last() as int,
            source,
            indent_width,
        ) by {
            lemma_rows_seq_each(e.elts@, n, i, depth.saturating_add(1), source, indent_width);
            assert(spec_shape(e.elts@[i]) == Some(child));
            assert(decreases_to!(e => e.elts@[i]));
            lemma_leaf_rows_formattable(e.elts@[i], depth.saturating_add(1), source, indent_width, child);
            assert(child.last() == s.last());
        }
    }
}

/// A literal with aligned column layouts can be written aligned to them.
pub proof fn lemma_aligned_formattable(elems: Seq<Expr>, source: Seq<u8>, indent_width: u32, line_width: u16, statement_indent: u16)
    requires
        spec_aligned_column_layouts(elems, source, indent_width, line_width, statement_indent) is Some,
    ensures
        formattable(
            elems,
            spec_aligned_column_layouts(elems, source, indent_width, line_width, statement_indent).unwrap().len() as int,
            source,
            indent_width,
        ),
{
    reveal(formattable);
    let first = spec_shape(elems[0]).unwrap();
    let n = elems.len() as int;
    lemma_rows_seq_width(elems, n, 1, source, indent_width, first);
    let rows = aligned_rows(elems, source, indent_width);
    assert(rows[0].0.elts@.len() == first.last());
    assert(spec_scalar_metrics(elems[0], source, indent_width) is None);
    assert forall|i: int| 0 <= i < n implies is_sequence(#[trigger] elems[i]) && formattable(
        elems[i].elts@,
        first.last() as int,
        source,
        indent_width,
    ) by {
        lemma_rows_seq_each(elems, n, i, 1, source, indent_width);
        assert(spec_shape(elems[i]) == Some(first));
        lemma_leaf_rows_formattable(elems[i], 1, source, indent_width, first);
    }
}

/// How a list literal is written.
pub enum ListFormat<'a> {
    /// `[]`, with any dangling comments inside.
    EmptyParenthesized,
    /// Aligned in columns.
    Aligned(Vec<FormatPiece<'a>>),
    /// The standard layout: elements joined by commas inside brackets.
    Parenthesized,
}

/// Formats list literals.
pub struct FormatExprList;

impl Default for FormatExprList {
    fn default() -> (r: Self)
        ensures
            r == FormatExprList,
    {
        FormatExprList
    }
}

/// A list is written aligned when Tali mode is on, it has elements and no
/// dangling comments, it spans more than one source line, and its column
/// layouts exist.
pub open spec fn spec_list_aligned(
    item: Expr,
    source: Seq<u8>,
    tali_mode: bool,
    indent_width: u32,
    line_width: u16,
    statement_indent: u16,
) -> bool {
    &&& item.elts@.len() > 0
    &&& tali_mode
    &&& item.dangling_comments@.len() == 0
    &&& has_line_break(source, item.range.start as int, item.range.end as int)
    &&& spec_aligned_column_layouts(item.elts@, source, indent_width, line_width, statement_indent) is Some
}

/// A list is written aligned exactly when Tali mode is on, it has elements
/// and no dangling comments, some byte of its whole source range is a `\n`
/// or `\r` (wherever in the range it stands), and its column layouts exist.
pub proof fn lemma_list_aligned_when_multiline(
    item: Expr,
    source: Seq<u8>,
    tali_mode: bool,
    indent_width: u32,
    line_width: u16,
    statement_indent: u16,
)
    ensures
        spec_list_aligned(item, source, tali_mode, indent_width, line_width, statement_indent) <==> (tali_mode
            && item.elts@.len() > 0 && item.dangling_comments@.len() == 0 && (exists|k: int|
            item.range.start <= k < item.range.end && (#[trigger] source[k] == 10u8 || source[k] == 13u8))
            && spec_aligned_column_layouts(item.elts@, source, indent_width, line_width, statement_indent) is Some),
{
    if exists|k: int| item.range.start <= k < item.range.end && (#[trigger] source[k] == 10u8 || source[k] == 13u8) {
        let k = choose|k: int| item.range.start <= k < item.range.end && (#[trigger] source[k] == 10u8 || source[k] == 13u8);
        assert(crate::text::is_line_break(source[k]));
    }
}

impl FormatExprList {
    /// How to write the list `item`: empty brackets when it has no
    /// elements; aligned in columns when `spec_list_aligned` holds, as
    /// `spec_aligned_pieces` says; otherwise the standard layout.
    pub fn fmt_fields<'a>(&self, item: &'a Expr, context: &PyFormatContext) -> (r: ListFormat<'a>)
        requires
            item.kind is List,
            expr_wf(*item, context.source@.len()),
        ensures
            item.elts@.len() == 0 <==> r is EmptyParenthesized,
            spec_list_aligned(
                *item,
                context.source@,
                context.tali_mode,
                context.indent_width,
                context.line_width,
                context.statement_indent,
            ) <==> r is Aligned,
            r matches ListFormat::Aligned(pieces) ==> pieces_view(pieces@) == spec_aligned_pieces(
                SequenceKind::List,
                item.elts@,
                spec_aligned_column_layouts(
                    item.elts@,
                    context.source@,
                    context.indent_width,
                    context.line_width,
                    context.statement_indent,
                ).unwrap(),
                context.source@,
                context.indent_width,
            ),
    {
        proof {
            lemma_expr_wf(*item, context.source@.len());
        }
        let elts = item.elts.as_slice();
        if elts.len() == 0 {
            return ListFormat::EmptyParenthesized;
        }
        if context.tali_mode && item.dangling_comments.len() == 0 && contains_line_break(
            context.source,
            item.range.start as usize,
            item.range.end as usize,
        ) {
            if let Some(column_layouts) = aligned_column_layouts(elts, context) {
                proof {
                    lemma_aligned_formattable(
                        elts@,
                        context.source@,
                        context.indent_width,
                        context.line_width,
                        context.statement_indent,
                    );
                }
                let mut pieces: Vec<FormatPiece<'a>> = Vec::new();
                format_aligned_sequence(SequenceKind::List, elts, column_layouts.as_slice(), context, &mut pieces);
                assert(pieces_view(pieces@) =~= spec_aligned_pieces(
                    SequenceKind::List,
                    item.elts@,
                    column_layouts@,
                    context.source@,
                    context.indent_width,
                ));
                return ListFormat::Aligned(pieces);
            }
        }
        ListFormat::Parenthesized
    }
}

/// Columns that one written piece of a single line takes: padding its
/// count, a cell its width, a delimiter, comma or space one.
pub open spec fn piece_width(piece: PieceView, source: Seq<u8>, indent_width: u32) -> int {
    match piece {
        PieceView::Padding(n) => n as int,
        PieceView::Cell(e) => match spec_scalar_metrics(e, source, indent_width) {
            Some(m) => m.width as int,
            None => 0,
        },
        PieceView::Open(_) | PieceView::Close(_) | PieceView::Comma | PieceView::Space => 1,
        _ => 0,
    }
}

/// Columns that written pieces take on one line.
pub open spec fn pieces_width(pieces: Seq<PieceView>, source: Seq<u8>, indent_width: u32) -> int
    decreases pieces.len(),
{
    if pieces.len() == 0 {
        0
    } else {
        pieces_width(pieces.drop_last(), source, indent_width) + piece_width(pieces.last(), source, indent_width)
    }
}

/// Sum of the widths of the first `n` column layouts.
pub open spec fn layouts_width(layouts: Seq<ColumnLayout>, n: int) -> int
    decreases n,
{
    if n <= 0 {
        0
    } else {
        layouts_width(layouts, n - 1) + layout_width(layouts[n - 1]) as int
    }
}

proof fn lemma_pieces_width_concat(a: Seq<PieceView>, b: Seq<PieceView>, source: Seq<u8>, indent_width: u32)
    ensures
        pieces_width(a + b, source, indent_width) == pieces_width(a, source, indent_width) + pieces_width(
            b,
            source,
            indent_width,
        ),
    decreases b.len(),
{
    if b.len() == 0 {
        assert(a + b =~= a);
    } else {
        lemma_pieces_width_concat(a, b.drop_last(), source, indent_width);
        assert((a + b).drop_last() =~= a + b.drop_last());
    }
}

proof fn lemma_row_pieces_width(
    elems: Seq<Expr>,
    layouts: Seq<ColumnLayout>,
    n: int,
    source: Seq<u8>,
    indent_width: u32,
)
    requires
        0 <= n <= elems.len() <= layouts.len(),
        elems.len() > 0,
        forall|i: int|
            0 <= i < elems.len() ==> {
                let m = spec_scalar_metrics(#[trigger] elems[i], source, indent_width);
                &&& m is Some
                &&& spec_leading_padding(layouts[i], m.unwrap()) + m.unwrap().width + spec_trailing_padding(
                    layouts[i],
                    m.unwrap(),
                ) == layout_width(layouts[i])
            },
    ensures
        pieces_width(spec_row_pieces(elems, layouts, n, source, indent_width), source, indent_width)
            == layouts_width(layouts, n) + 2 * (if n < elems.len() {
            n
        } else {
            elems.len() - 1
        }),
    decreases n,
{
    if n > 0 {
        let i = n - 1;
        lemma_row_pieces_width(elems, layouts, i, source, indent_width);
        let m = spec_scalar_metrics(elems[i], source, indent_width).unwrap();
        let cell = seq![
            PieceView::Padding(spec_leading_padding(layouts[i], m)),
            PieceView::Cell(elems[i]),
            PieceView::Padding(spec_trailing_padding(layouts[i], m)),
        ];
        let sep = if i + 1 < elems.len() {
            seq![PieceView::Comma, PieceView::Space]
        } else {
            Seq::<PieceView>::empty()
        };
        let front = spec_row_pieces(elems, layouts, i, source, indent_width);
        assert(spec_row_pieces(elems, layouts, n, source, indent_width) == front + cell + sep);
        lemma_pieces_width_concat(front + cell, sep, source, indent_width);
        lemma_pieces_width_concat(front, cell, source, indent_width);
        assert(pieces_width(cell, source, indent_width) == layout_width(layouts[i])) by {
            reveal_with_fuel(pieces_width, 4);
        }
        assert(pieces_width(sep, source, indent_width) == if i + 1 < elems.len() {
            2int
        } else {
            0int
        }) by {
            reveal_with_fuel(pieces_width, 3);
        }
    }
}

/// Every leaf row of an aligned literal is written to the same width: the
/// column widths, `", "` between cells and the two delimiters. So whatever
/// follows a row (its comma and trailing comment) lines up across the rows.
pub proof fn lemma_aligned_rows_equal_width(
    elems: Seq<Expr>,
    source: Seq<u8>,
    indent_width: u32,
    line_width: u16,
    statement_indent: u16,
    k: int,
)
    requires
        spec_aligned_column_layouts(elems, source, indent_width, line_width, statement_indent) is Some,
        0 <= k < aligned_rows(elems, source, indent_width).len(),
    ensures
        ({
            let layouts = spec_aligned_column_layouts(elems, source, indent_width, line_width, statement_indent).unwrap();
            let row = aligned_rows(elems, source, indent_width)[k].0;
            pieces_width(
                spec_aligned_pieces(sequence_kind(row), row.elts@, layouts, source, indent_width),
                source,
                indent_width,
            ) == layouts_width(layouts, layouts.len() as int) + 2 * (layouts.len() - 1) + 2
        }),
{
    let layouts = spec_aligned_column_layouts(elems, source, indent_width, line_width, statement_indent).unwrap();
    let rows = aligned_rows(elems, source, indent_width);
    let row = rows[k].0;
    let first = spec_shape(elems[0]).unwrap();
    lemma_rows_seq_width(elems, elems.len() as int, 1, source, indent_width, first);
    assert(row.elts@.len() == layouts.len());
    assert(all_cells(row.elts@, source, indent_width));
    assert forall|i: int| 0 <= i < row.elts@.len() implies {
        let m = spec_scalar_metrics(#[trigger] row.elts@[i], source, indent_width);
        &&& m is Some
        &&& spec_leading_padding(layouts[i], m.unwrap()) + m.unwrap().width + spec_trailing_padding(
            layouts[i],
            m.unwrap(),
        ) == layout_width(layouts[i])
    } by {
        lemma_aligned_cells_fill_columns(elems, source, indent_width, line_width, statement_indent, k, i);
    }
    let n = row.elts@.len() as int;
    lemma_row_pieces_width(row.elts@, layouts, n, source, indent_width);
    let kind = sequence_kind(row);
    let body = spec_row_pieces(row.elts@, layouts, n, source, indent_width);
    lemma_pieces_width_concat(seq![PieceView::Open(kind)] + body, seq![PieceView::Close(kind)], source, indent_width);
    lemma_pieces_width_concat(seq![PieceView::Open(kind)], body, source, indent_width);
    assert(pieces_width(seq![PieceView::Open(kind)], source, indent_width) == 1) by {
        reveal_with_fuel(pieces_width, 2);
    }
    assert(pieces_width(seq![PieceView::Close(kind)], source, indent_width) == 1) by {
        reveal_with_fuel(pieces_width, 2);
    }
}

/// Whether an expression needs parentheses around it.
#[derive(Clone, Copy, Debug, PartialEq, Eq, Structural)]
pub enum OptionalParentheses {
    Multiline,
    Always,
    BestFit,
    Never,
}

/// A list literal never needs parentheses around it: its brackets delimit
/// it already.
pub fn needs_parentheses(list: &Expr, context: &PyFormatContext) -> (r: OptionalParentheses)
    ensures
        r == OptionalParentheses::Never,
{
    OptionalParentheses::Never
}

} // verus!
