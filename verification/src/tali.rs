//! Horizontal alignment in Tali mode: `=` of neighbouring assignments, the
//! annotations after `:`, and trailing comments, lined up where the source
//! shows that they were lined up on purpose.
use vstd::prelude::*;
use vstd::utf8::{valid_utf8, decode_utf8};

use std::collections::HashMap;

use crate::expr_list::max_u32;
use crate::ast::{SourceComment, Stmt, StmtKind, StmtTag, TextRange, LinePosition, stmt_wf, range_in};
use crate::text::{
    find_from, rfind_before, find_sub_from, has_line_break, is_char_boundary, trimmed_end, find_byte,
    rfind_byte, find_sub, char_boundary, contains_line_break, trim_end_index, lemma_find_from,
    lemma_rfind_before,
};
use crate::width::{utf8_columns, columns_sum, columns_exceed, lemma_utf8_columns_decode};

verus! {

/// Start of the line that holds `offset`: just after the last `\n` before
/// it, or 0.
pub open spec fn spec_line_start(offset: int, source: Seq<u8>) -> int {
    match rfind_before(source, 10u8, offset) {
        Some(i) => i + 1,
        None => 0,
    }
}

/// Column of `offset`: bytes since the start of its line.
pub open spec fn spec_source_column(offset: u32, source: Seq<u8>) -> u32 {
    (offset - spec_line_start(offset as int, source)) as u32
}

/// Start of the line after the one that holds `offset`: just after the next
/// `\n`, or the end of the source. `None` where `offset` is no character
/// boundary or the result does not fit in `u32`.
pub open spec fn spec_next_line_start(offset: u32, source: Seq<u8>) -> Option<u32> {
    if !is_char_boundary(source, offset as int) {
        None
    } else {
        let next = match find_from(source, 10u8, offset as int) {
            Some(i) => i + 1,
            None => source.len() as int,
        };
        if next <= u32::MAX {
            Some(next as u32)
        } else {
            None
        }
    }
}

/// Position of the first `operator` in `source[start..end]`.
pub open spec fn spec_find_operator(start: u32, end: u32, operator: Seq<u8>, source: Seq<u8>) -> Option<u32> {
    match find_sub_from(source, operator, start as int, end as int) {
        Some(i) => Some(i as u32),
        None => None,
    }
}

proof fn lemma_find_sub_from_bounds(s: Seq<u8>, needle: Seq<u8>, lo: int, hi: int)
    requires
        0 <= lo,
        hi <= s.len(),
    ensures
        find_sub_from(s, needle, lo, hi) matches Some(i) ==> lo <= i && i + needle.len() <= hi,
    decreases hi + 1 - lo,
{
    if !(lo < 0 || lo + needle.len() > hi) && !crate::text::occurs_at(s, needle, lo, hi) {
        lemma_find_sub_from_bounds(s, needle, lo + 1, hi);
    }
}

/// Position of the first `operator` between `start` and `end`.
pub fn find_operator(start: u32, end: u32, operator: &[u8], source: &[u8]) -> (r: Option<u32>)
    requires
        start <= end <= source@.len(),
    ensures
        r == spec_find_operator(start, end, operator@, source@),
        r matches Some(p) ==> start <= p && p + operator@.len() <= end,
{
    proof {
        lemma_find_sub_from_bounds(source@, operator@, start as int, end as int);
    }
    match find_sub(source, operator, start as usize, end as usize) {
        Some(i) => Some(i as u32),
        None => None,
    }
}

/// Start of the next line after `offset` (see `spec_next_line_start`).
pub fn next_line_start(offset: u32, source: &[u8]) -> (r: Option<u32>)
    ensures
        r == spec_next_line_start(offset, source@),
{
    let offset = offset as usize;
    if !char_boundary(source, offset) {
        return None;
    }
    let next = match find_byte(source, 10u8, offset) {
        Some(newline) => {
            proof {
                lemma_find_from(source@, 10u8, offset as int);
            }
            assert(newline < source.len());
            newline + 1
        },
        None => source.len(),
    };
    if next <= 0xFFFF_FFFFusize {
        Some(next as u32)
    } else {
        None
    }
}

/// Column of `offset` in its line.
pub fn source_column(offset: u32, source: &[u8]) -> (r: u32)
    requires
        offset <= source@.len(),
    ensures
        r == spec_source_column(offset, source@),
        r <= offset,
{
    proof {
        lemma_rfind_before(source@, 10u8, offset as int);
    }
    match rfind_byte(source, 10u8, offset as usize) {
        Some(newline) => offset - (newline as u32 + 1),
        None => offset,
    }
}

/// Start of the line that holds `offset`.
pub fn source_line_start(offset: u32, source: &[u8]) -> (r: u32)
    requires
        offset <= source@.len(),
    ensures
        r == spec_line_start(offset as int, source@),
        r <= offset,
{
    proof {
        lemma_rfind_before(source@, 10u8, offset as int);
    }
    match rfind_byte(source, 10u8, offset as usize) {
        Some(newline) => newline as u32 + 1,
        None => 0,
    }
}

/// An assignment `=` or an annotation that might be aligned with those of
/// neighbouring statements: where its statement's line starts and the next
/// line starts, the column it stands at, the column where the code before it
/// ends, and how many spaces the source has between the two.
#[derive(Clone, Copy, Debug, PartialEq, Eq, Structural)]
pub struct OperatorCandidate {
    pub statement_start: u32,
    pub line_start: u32,
    pub line_end: u32,
    pub operator_column: u32,
    pub adjacent_column: u32,
    pub source_spaces: u32,
}

/// The candidate of a statement whose operator (or annotation) stands at
/// `operator` and whose preceding code ends at `adjacent`.
pub open spec fn candidate_at(
    statement_start: u32,
    line_start: u32,
    line_end: u32,
    operator: u32,
    adjacent: u32,
    source: Seq<u8>,
) -> OperatorCandidate {
    OperatorCandidate {
        statement_start,
        line_start,
        line_end,
        operator_column: spec_source_column(operator, source),
        adjacent_column: spec_source_column(adjacent, source),
        source_spaces: spec_source_column(operator, source).saturating_sub(spec_source_column(adjacent, source)),
    }
}

/// `=` as bytes.
pub open spec fn equals_sign() -> Seq<u8> {
    seq![61u8]
}

/// `:` as bytes.
pub open spec fn colon_sign() -> Seq<u8> {
    seq![58u8]
}

/// Alignment candidates of a one-line statement that ends a line of the
/// source: for `target = value` (one target) its `=`; for `target:
/// annotation` the annotation, and for `target: annotation = value` also its
/// `=`. The first component is the `=`, the second the annotation.
pub open spec fn spec_operator_candidates(s: Stmt, source: Seq<u8>) -> (Option<OperatorCandidate>, Option<OperatorCandidate>) {
    if has_line_break(source, s.range.start as int, s.range.end as int) {
        (None, None)
    } else {
        match spec_next_line_start(s.range.end, source) {
            None => (None, None),
            Some(line_end) => {
                let line_start = spec_line_start(s.range.start as int, source) as u32;
                let start = s.range.start;
                match s.kind {
                    StmtKind::Assign { targets, value } => if targets@.len() != 1 {
                        (None, None)
                    } else {
                        let target = targets@.last();
                        match spec_find_operator(target.end, value.start, equals_sign(), source) {
                            None => (None, None),
                            Some(op) => (
                                Some(candidate_at(start, line_start, line_end, op, target.end, source)),
                                None,
                            ),
                        }
                    },
                    StmtKind::AnnAssign { target, annotation, value } => match spec_find_operator(
                        target.end,
                        annotation.start,
                        colon_sign(),
                        source,
                    ) {
                        None => (None, None),
                        Some(colon) => {
                            let annotated = candidate_at(
                                start,
                                line_start,
                                line_end,
                                annotation.start,
                                (colon + 1) as u32,
                                source,
                            );
                            let assigned = match value {
                                Some(v) => match spec_find_operator(annotation.end, v.start, equals_sign(), source) {
                                    Some(op) => Some(candidate_at(start, line_start, line_end, op, annotation.end, source)),
                                    None => None,
                                },
                                None => None,
                            };
                            (assigned, Some(annotated))
                        },
                    },
                    _ => (None, None),
                }
            },
        }
    }
}

fn make_candidate(
    statement_start: u32,
    line_start: u32,
    line_end: u32,
    operator: u32,
    adjacent: u32,
    source: &[u8],
) -> (r: OperatorCandidate)
    requires
        operator <= source@.len(),
        adjacent <= source@.len(),
    ensures
        r == candidate_at(statement_start, line_start, line_end, operator, adjacent, source@),
{
    let operator_column = source_column(operator, source);
    let adjacent_column = source_column(adjacent, source);
    OperatorCandidate {
        statement_start,
        line_start,
        line_end,
        operator_column,
        adjacent_column,
        source_spaces: operator_column.saturating_sub(adjacent_column),
    }
}

/// Alignment candidates of a statement (see `spec_operator_candidates`).
pub fn operator_candidates(statement: &Stmt, source: &[u8]) -> (r: (Option<OperatorCandidate>, Option<OperatorCandidate>))
    requires
        stmt_wf(*statement, source@.len()),
    ensures
        r == spec_operator_candidates(*statement, source@),
{
    let equals: [u8; 1] = [61u8];
    let colon_bytes: [u8; 1] = [58u8];
    assert(equals@ =~= equals_sign());
    assert(colon_bytes@ =~= colon_sign());
    if contains_line_break(source, statement.range.start as usize, statement.range.end as usize) {
        return (None, None);
    }
    let line_end = match next_line_start(statement.range.end, source) {
        Some(line_end) => line_end,
        None => return (None, None),
    };
    let line_start = source_line_start(statement.range.start, source);
    let start = statement.range.start;
    match &statement.kind {
        StmtKind::Assign { targets, value } => {
            if targets.len() != 1 {
                return (None, None);
            }
            let target = targets[targets.len() - 1];
            assert(range_in(targets@[0], start, value.start));
            match find_operator(target.end, value.start, equals.as_slice(), source) {
                Some(op) => (Some(make_candidate(start, line_start, line_end, op, target.end, source)), None),
                None => (None, None),
            }
        },
        StmtKind::AnnAssign { target, annotation, value } => {
            let colon = match find_operator(target.end, annotation.start, colon_bytes.as_slice(), source) {
                Some(colon) => colon,
                None => return (None, None),
            };
            let annotated = make_candidate(start, line_start, line_end, annotation.start, colon + 1, source);
            let assigned = match value {
                Some(v) => match find_operator(annotation.end, v.start, equals.as_slice(), source) {
                    Some(op) => Some(make_candidate(start, line_start, line_end, op, annotation.end, source)),
                    None => None,
                },
                None => None,
            };
            (assigned, Some(annotated))
        },
        _ => (None, None),
    }
}

/// `x`, or `u16::MAX` where it does not fit (`u16::try_from(x).unwrap_or(u16::MAX)`).
pub open spec fn clamp_u16(x: u32) -> u16 {
    if x > 0xFFFFu32 {
        0xFFFFu16
    } else {
        x as u16
    }
}

fn to_u16_saturating(x: u32) -> (r: u16)
    ensures
        r == clamp_u16(x),
{
    if x > 0xFFFFu32 {
        0xFFFFu16
    } else {
        x as u16
    }
}

/// Rightmost operator column of a run.
pub open spec fn max_operator_column(run: Seq<OperatorCandidate>) -> u32
    decreases run.len(),
{
    if run.len() == 0 {
        0
    } else {
        max_u32(max_operator_column(run.drop_last()), run.last().operator_column)
    }
}

/// Spaces before the operator of `candidate` so that it lands at `column`;
/// at least one.
pub open spec fn operator_spaces(column: u32, candidate: OperatorCandidate) -> u16 {
    clamp_u16(max_u32(column.saturating_sub(candidate.adjacent_column), 1))
}

/// `out` with the spaces of every candidate of `run` inserted, keyed by
/// statement start, in run order.
pub open spec fn insert_operator_run(run: Seq<OperatorCandidate>, column: u32, out: Map<u32, u16>) -> Map<u32, u16>
    decreases run.len(),
{
    if run.len() == 0 {
        out
    } else {
        insert_operator_run(run.drop_last(), column, out).insert(
            run.last().statement_start,
            operator_spaces(column, run.last()),
        )
    }
}

/// A run is aligned when it has at least two statements and one of them was
/// spaced out by at least two spaces in the source.
pub open spec fn operator_run_qualifies(run: Seq<OperatorCandidate>) -> bool {
    run.len() >= 2 && exists|i: int| 0 <= i < run.len() && (#[trigger] run[i]).source_spaces >= 2
}

/// Spacing after a run ends: every candidate of a qualifying run is spaced
/// to the run's rightmost operator column; any other run changes nothing.
pub open spec fn spec_finish_operator_run(run: Seq<OperatorCandidate>, out: Map<u32, u16>) -> Map<u32, u16> {
    if operator_run_qualifies(run) {
        insert_operator_run(run, max_operator_column(run), out)
    } else {
        out
    }
}

fn any_spaced_operator(run: &Vec<OperatorCandidate>) -> (r: bool)
    ensures
        r == exists|i: int| 0 <= i < run@.len() && (#[trigger] run@[i]).source_spaces >= 2,
{
    let mut i: usize = 0;
    while i < run.len()
        invariant
            i <= run@.len(),
            forall|j: int| 0 <= j < i ==> (#[trigger] run@[j]).source_spaces < 2,
        decreases run@.len() - i,
    {
        if run[i].source_spaces >= 2 {
            return true;
        }
        i = i + 1;
    }
    false
}

/// Ends the current run of operator candidates: records the spacing of a
/// qualifying run, and empties the run.
pub fn finish_operator_run(run: &mut Vec<OperatorCandidate>, output: &mut HashMap<u32, u16>)
    ensures
        final(run)@ == Seq::<OperatorCandidate>::empty(),
        final(output)@ == spec_finish_operator_run(old(run)@, old(output)@),
        !operator_run_qualifies(old(run)@) ==> final(output)@ == old(output)@,
{
    broadcast use vstd::std_specs::hash::group_hash_axioms;

    let qualifies = run.len() >= 2 && any_spaced_operator(run);
    if !qualifies {
        run.clear();
        return;
    }
    let mut column: u32 = 0;
    let mut i: usize = 0;
    while i < run.len()
        invariant
            i <= run@.len(),
            run@ == old(run)@,
            output@ == old(output)@,
            column == max_operator_column(run@.take(i as int)),
        decreases run@.len() - i,
    {
        assert(run@.take(i + 1).drop_last() =~= run@.take(i as int));
        if run[i].operator_column > column {
            column = run[i].operator_column;
        }
        i = i + 1;
    }
    assert(run@.take(i as int) =~= run@);
    let ghost start = output@;
    let mut i: usize = 0;
    while i < run.len()
        invariant
            i <= run@.len(),
            run@ == old(run)@,
            start == old(output)@,
            operator_run_qualifies(run@),
            column == max_operator_column(run@),
            output@ == insert_operator_run(run@.take(i as int), column, start),
        decreases run@.len() - i,
    {
        assert(run@.take(i + 1).drop_last() =~= run@.take(i as int));
        let candidate = run[i];
        let spaces = column.saturating_sub(candidate.adjacent_column);
        let spaces = if spaces < 1 {
            1
        } else {
            spaces
        };
        output.insert(candidate.statement_start, to_u16_saturating(spaces));
        i = i + 1;
    }
    assert(run@.take(i as int) =~= run@);
    run.clear();
}

/// The run continues with `candidate` when the run is empty or the
/// candidate's line follows the run's last line directly.
pub open spec fn continues_operator_run(run: Seq<OperatorCandidate>, candidate: OperatorCandidate) -> bool {
    run.len() == 0 || candidate.line_start == run.last().line_end
}

/// The run and the spacing after one more statement's candidate (or its
/// lack): a candidate that continues the run joins it; otherwise the run is
/// finished and a new one starts with the candidate, if any.
pub open spec fn spec_push_operator_candidate(
    candidate: Option<OperatorCandidate>,
    run: Seq<OperatorCandidate>,
    out: Map<u32, u16>,
) -> (Seq<OperatorCandidate>, Map<u32, u16>) {
    match candidate {
        Some(c) => if continues_operator_run(run, c) {
            (run.push(c), out)
        } else {
            (seq![c], spec_finish_operator_run(run, out))
        },
        None => (Seq::empty(), spec_finish_operator_run(run, out)),
    }
}

/// Adds one statement's candidate to the run (see
/// `spec_push_operator_candidate`).
pub fn push_operator_candidate(
    candidate: Option<OperatorCandidate>,
    run: &mut Vec<OperatorCandidate>,
    output: &mut HashMap<u32, u16>,
)
    ensures
        (final(run)@, final(output)@) == spec_push_operator_candidate(candidate, old(run)@, old(output)@),
{
    let continues = match candidate {
        Some(c) => run.len() == 0 || c.line_start == run[run.len() - 1].line_end,
        None => false,
    };
    if continues {
        match candidate {
            Some(c) => run.push(c),
            None => {},
        }
    } else {
        finish_operator_run(run, output);
        match candidate {
            Some(c) => {
                run.push(c);
                assert(run@ =~= seq![c]);
            },
            None => {},
        }
    }
}

/// Spaces to put, keyed by statement start: before the `=` of
/// assignments, after the `:` of annotations; and keyed by comment start,
/// before trailing comments.
pub struct HorizontalLayout {
    pub assignments: HashMap<u32, u16>,
    pub annotations: HashMap<u32, u16>,
    pub comments: HashMap<u32, u16>,
}

/// State after scanning the first `n` statements for operator alignment:
/// the open run of `=` candidates and of annotation candidates, and the
/// spacing recorded for each so far.
pub open spec fn operator_scan(
    statements: Seq<Stmt>,
    n: int,
    source: Seq<u8>,
    assignments: Map<u32, u16>,
    annotations: Map<u32, u16>,
) -> (Seq<OperatorCandidate>, Seq<OperatorCandidate>, Map<u32, u16>, Map<u32, u16>)
    decreases n,
{
    if n <= 0 {
        (Seq::empty(), Seq::empty(), assignments, annotations)
    } else {
        let prev = operator_scan(statements, n - 1, source, assignments, annotations);
        let (assigned, annotated) = spec_operator_candidates(statements[n - 1], source);
        let next_assignments = spec_push_operator_candidate(assigned, prev.0, prev.2);
        let next_annotations = spec_push_operator_candidate(annotated, prev.1, prev.3);
        (next_assignments.0, next_annotations.0, next_assignments.1, next_annotations.1)
    }
}

/// Spacing of assignments and annotations after all statements are scanned
/// and the last runs are finished.
pub open spec fn spec_align_operators(
    statements: Seq<Stmt>,
    source: Seq<u8>,
    assignments: Map<u32, u16>,
    annotations: Map<u32, u16>,
) -> (Map<u32, u16>, Map<u32, u16>) {
    let scan = operator_scan(statements, statements.len() as int, source, assignments, annotations);
    (spec_finish_operator_run(scan.0, scan.2), spec_finish_operator_run(scan.1, scan.3))
}

/// Records the spacing of runs of aligned assignments and annotations.
pub fn align_operators(statements: &[Stmt], source: &[u8], layout: &mut HorizontalLayout)
    requires
        forall|i: int| 0 <= i < statements@.len() ==> stmt_wf(#[trigger] statements@[i], source@.len()),
    ensures
        (final(layout).assignments@, final(layout).annotations@) == spec_align_operators(
            statements@,
            source@,
            old(layout).assignments@,
            old(layout).annotations@,
        ),
        final(layout).comments@ == old(layout).comments@,
{
    let mut assignments: Vec<OperatorCandidate> = Vec::new();
    let mut annotations: Vec<OperatorCandidate> = Vec::new();
    let mut i: usize = 0;
    while i < statements.len()
        invariant
            i <= statements@.len(),
            forall|j: int| 0 <= j < statements@.len() ==> stmt_wf(#[trigger] statements@[j], source@.len()),
            layout.comments@ == old(layout).comments@,
            (assignments@, annotations@, layout.assignments@, layout.annotations@) == operator_scan(
                statements@,
                i as int,
                source@,
                old(layout).assignments@,
                old(layout).annotations@,
            ),
        decreases statements@.len() - i,
    {
        let (assigned, annotated) = operator_candidates(&statements[i], source);
        push_operator_candidate(assigned, &mut assignments, &mut layout.assignments);
        push_operator_candidate(annotated, &mut annotations, &mut layout.annotations);
        i = i + 1;
    }
    finish_operator_run(&mut assignments, &mut layout.assignments);
    finish_operator_run(&mut annotations, &mut layout.annotations);
}

/// Spaces recorded for `key`, or one where none are.
pub open spec fn recorded_or_one(m: Map<u32, u16>, key: u32) -> u16 {
    if m.contains_key(key) {
        m[key]
    } else {
        1
    }
}

fn lookup_or_one(m: &HashMap<u32, u16>, key: u32) -> (r: u16)
    ensures
        r == recorded_or_one(m@, key),
{
    broadcast use vstd::std_specs::hash::group_hash_axioms;

    match m.get(&key) {
        Some(v) => *v,
        None => 1,
    }
}

/// Width of a range.
pub open spec fn range_len(r: TextRange) -> u32 {
    (r.end - r.start) as u32
}

/// Column where a one-line statement ends once formatted: for an
/// assignment with one target, the target, the recorded spaces (or one),
/// `= ` and the rest of the statement from the value on; for an annotated
/// assignment, the target, `:`, the recorded spaces (or one), the annotation,
/// and where there is a value, the recorded spaces (or one), `= ` and the
/// value; otherwise where the statement ends in the source. Sums saturate.
pub open spec fn spec_statement_end_column(
    s: Stmt,
    source: Seq<u8>,
    assignments: Map<u32, u16>,
    annotations: Map<u32, u16>,
) -> u32 {
    let start = spec_source_column(s.range.start, source);
    match s.kind {
        StmtKind::Assign { targets, value } => if targets@.len() == 1 {
            start.saturating_add(range_len(targets@[0])).saturating_add(
                recorded_or_one(assignments, s.range.start) as u32,
            ).saturating_add(2).saturating_add((s.range.end - value.start) as u32)
        } else {
            spec_source_column(s.range.end, source)
        },
        StmtKind::AnnAssign { target, annotation, value } => {
            let end = start.saturating_add(range_len(target)).saturating_add(1).saturating_add(
                recorded_or_one(annotations, s.range.start) as u32,
            ).saturating_add(range_len(annotation));
            match value {
                Some(v) => end.saturating_add(recorded_or_one(assignments, s.range.start) as u32).saturating_add(
                    2,
                ).saturating_add(range_len(v)),
                None => end,
            }
        },
        _ => spec_source_column(s.range.end, source),
    }
}

/// Column where the statement ends once formatted (see
/// `spec_statement_end_column`).
pub fn formatted_statement_end_column(statement: &Stmt, source: &[u8], layout: &HorizontalLayout) -> (r: u32)
    requires
        stmt_wf(*statement, source@.len()),
    ensures
        r == spec_statement_end_column(*statement, source@, layout.assignments@, layout.annotations@),
{
    let start = source_column(statement.range.start, source);
    match &statement.kind {
        StmtKind::Assign { targets, value } => {
            if targets.len() == 1 {
                let target = targets[0];
                assert(range_in(targets@[0], statement.range.start, value.start));
                let spaces = lookup_or_one(&layout.assignments, statement.range.start);
                start.saturating_add(target.end - target.start).saturating_add(spaces as u32).saturating_add(
                    2,
                ).saturating_add(statement.range.end - value.start)
            } else {
                source_column(statement.range.end, source)
            }
        },
        StmtKind::AnnAssign { target, annotation, value } => {
            let annotation_spaces = lookup_or_one(&layout.annotations, statement.range.start);
            let mut end = start.saturating_add(target.end - target.start).saturating_add(1).saturating_add(
                annotation_spaces as u32,
            ).saturating_add(annotation.end - annotation.start);
            match value {
                Some(v) => {
                    let assignment_spaces = lookup_or_one(&layout.assignments, statement.range.start);
                    end = end.saturating_add(assignment_spaces as u32).saturating_add(2).saturating_add(
                        v.end - v.start,
                    );
                },
                None => {},
            }
            end
        },
        _ => source_column(statement.range.end, source),
    }
}

/// Which statements' comments may be aligned together: assignments of any
/// kind, or statements of one same kind.
#[derive(Clone, Copy, Debug, PartialEq, Eq, Structural)]
pub enum CommentFamily {
    Assignment,
    Other(StmtTag),
}

pub open spec fn spec_comment_family(kind: StmtKind) -> CommentFamily {
    match kind {
        StmtKind::Assign { .. } | StmtKind::AnnAssign { .. } | StmtKind::AugAssign => CommentFamily::Assignment,
        StmtKind::Other(tag) => CommentFamily::Other(tag),
    }
}

/// A trailing comment that might be aligned with those of neighbouring
/// statements.
#[derive(Clone, Copy, Debug, PartialEq, Eq, Structural)]
pub struct CommentCandidate {
    pub family: CommentFamily,
    pub line_start: u32,
    pub comment_start: u32,
    pub line_end: u32,
    pub comment_column: u32,
    pub code_column: u32,
    pub source_spaces: u32,
}

/// First comment at the end of a line among `comments[i..]`.
pub open spec fn first_end_of_line(comments: Seq<SourceComment>, i: int) -> Option<SourceComment>
    decreases comments.len() - i,
{
    if i < 0 || i >= comments.len() {
        None
    } else if comments[i].line_position is EndOfLine {
        Some(comments[i])
    } else {
        first_end_of_line(comments, i + 1)
    }
}

/// Candidate of a one-line statement with an end-of-line comment: the
/// comment's column, where the formatted code ends, and the spaces between.
pub open spec fn spec_comment_candidate(
    s: Stmt,
    source: Seq<u8>,
    assignments: Map<u32, u16>,
    annotations: Map<u32, u16>,
) -> Option<CommentCandidate> {
    match first_end_of_line(s.trailing_comments@, 0) {
        None => None,
        Some(comment) => if has_line_break(source, s.range.start as int, s.range.end as int) {
            None
        } else {
            match spec_next_line_start(comment.range.end, source) {
                None => None,
                Some(line_end) => {
                    let comment_column = spec_source_column(comment.range.start, source);
                    let code_column = spec_statement_end_column(s, source, assignments, annotations);
                    Some(
                        CommentCandidate {
                            family: spec_comment_family(s.kind),
                            line_start: spec_line_start(s.range.start as int, source) as u32,
                            comment_start: comment.range.start,
                            line_end,
                            comment_column,
                            code_column,
                            source_spaces: comment_column.saturating_sub(code_column),
                        },
                    )
                },
            }
        },
    }
}

fn find_end_of_line_comment(comments: &Vec<SourceComment>) -> (r: Option<SourceComment>)
    ensures
        r == first_end_of_line(comments@, 0),
        r matches Some(c) ==> exists|j: int| 0 <= j < comments@.len() && comments@[j] == c,
{
    let mut i: usize = 0;
    while i < comments.len()
        invariant
            i <= comments@.len(),
            first_end_of_line(comments@, 0) == first_end_of_line(comments@, i as int),
        decreases comments@.len() - i,
    {
        match comments[i].line_position {
            LinePosition::EndOfLine => {
                assert(comments@[i as int] == comments[i as int]);
                return Some(comments[i]);
            },
            LinePosition::OwnLine => {},
        }
        i = i + 1;
    }
    None
}

/// Comment alignment candidate of a statement (see `spec_comment_candidate`).
pub fn comment_candidate(statement: &Stmt, source: &[u8], layout: &HorizontalLayout) -> (r: Option<CommentCandidate>)
    requires
        stmt_wf(*statement, source@.len()),
    ensures
        r == spec_comment_candidate(*statement, source@, layout.assignments@, layout.annotations@),
{
    let comment = match find_end_of_line_comment(&statement.trailing_comments) {
        Some(comment) => comment,
        None => return None,
    };
    if contains_line_break(source, statement.range.start as usize, statement.range.end as usize) {
        return None;
    }
    let comment_column = source_column(comment.range.start, source);
    let code_column = formatted_statement_end_column(statement, source, layout);
    let family = match &statement.kind {
        StmtKind::Assign { .. } | StmtKind::AnnAssign { .. } | StmtKind::AugAssign => CommentFamily::Assignment,
        StmtKind::Other(tag) => CommentFamily::Other(*tag),
    };
    let line_end = match next_line_start(comment.range.end, source) {
        Some(line_end) => line_end,
        None => return None,
    };
    Some(
        CommentCandidate {
            family,
            line_start: source_line_start(statement.range.start, source),
            comment_start: comment.range.start,
            line_end,
            comment_column,
            code_column,
            source_spaces: comment_column.saturating_sub(code_column),
        },
    )
}

/// Column a candidate's comment asks for: where it stands, but at least two
/// columns after the code.
pub open spec fn comment_target(c: CommentCandidate) -> u32 {
    max_u32(c.comment_column, c.code_column.saturating_add(2))
}

/// Rightmost column that a comment of the run asks for.
pub open spec fn max_comment_column(run: Seq<CommentCandidate>) -> u32
    decreases run.len(),
{
    if run.len() == 0 {
        0
    } else {
        max_u32(max_comment_column(run.drop_last()), comment_target(run.last()))
    }
}

/// Spaces before the comment of `candidate` so that it lands at `column`;
/// at least two.
pub open spec fn comment_spaces(column: u32, candidate: CommentCandidate) -> u16 {
    clamp_u16(max_u32(column.saturating_sub(candidate.code_column), 2))
}

/// `out` with the spaces of every comment of `run` inserted, keyed by
/// comment start, in run order.
pub open spec fn insert_comment_run(run: Seq<CommentCandidate>, column: u32, out: Map<u32, u16>) -> Map<u32, u16>
    decreases run.len(),
{
    if run.len() == 0 {
        out
    } else {
        insert_comment_run(run.drop_last(), column, out).insert(
            run.last().comment_start,
            comment_spaces(column, run.last()),
        )
    }
}

/// A run of comments is aligned when it has at least two and one of them
/// stood at least four spaces after its code in the source.
pub open spec fn comment_run_qualifies(run: Seq<CommentCandidate>) -> bool {
    run.len() >= 2 && exists|i: int| 0 <= i < run.len() && (#[trigger] run[i]).source_spaces >= 4
}

/// Spacing after a run of comments ends: every comment of a qualifying run
/// is spaced to the rightmost column the run asks for; any other run
/// changes nothing.
pub open spec fn spec_finish_comment_run(run: Seq<CommentCandidate>, out: Map<u32, u16>) -> Map<u32, u16> {
    if comment_run_qualifies(run) {
        insert_comment_run(run, max_comment_column(run), out)
    } else {
        out
    }
}

fn any_spaced_comment(run: &Vec<CommentCandidate>) -> (r: bool)
    ensures
        r == exists|i: int| 0 <= i < run@.len() && (#[trigger] run@[i]).source_spaces >= 4,
{
    let mut i: usize = 0;
    while i < run.len()
        invariant
            i <= run@.len(),
            forall|j: int| 0 <= j < i ==> (#[trigger] run@[j]).source_spaces < 4,
        decreases run@.len() - i,
    {
        if run[i].source_spaces >= 4 {
            return true;
        }
        i = i + 1;
    }
    false
}

/// Ends the current run of comment candidates: records the spacing of a
/// qualifying run, and empties the run.
pub fn finish_comment_run(run: &mut Vec<CommentCandidate>, output: &mut HashMap<u32, u16>)
    ensures
        final(run)@ == Seq::<CommentCandidate>::empty(),
        final(output)@ == spec_finish_comment_run(old(run)@, old(output)@),
        !comment_run_qualifies(old(run)@) ==> final(output)@ == old(output)@,
{
    broadcast use vstd::std_specs::hash::group_hash_axioms;

    let qualifies = run.len() >= 2 && any_spaced_comment(run);
    if !qualifies {
        run.clear();
        return;
    }
    let mut column: u32 = 0;
    let mut i: usize = 0;
    while i < run.len()
        invariant
            i <= run@.len(),
            run@ == old(run)@,
            output@ == old(output)@,
            column == max_comment_column(run@.take(i as int)),
        decreases run@.len() - i,
    {
        assert(run@.take(i + 1).drop_last() =~= run@.take(i as int));
        let candidate = run[i];
        let wanted = candidate.code_column.saturating_add(2);
        let wanted = if candidate.comment_column >= wanted {
            candidate.comment_column
        } else {
            wanted
        };
        if wanted > column {
            column = wanted;
        }
        i = i + 1;
    }
    assert(run@.take(i as int) =~= run@);
    let ghost start = output@;
    let mut i: usize = 0;
    while i < run.len()
        invariant
            i <= run@.len(),
            run@ == old(run)@,
            start == old(output)@,
            comment_run_qualifies(run@),
            column == max_comment_column(run@),
            output@ == insert_comment_run(run@.take(i as int), column, start),
        decreases run@.len() - i,
    {
        assert(run@.take(i + 1).drop_last() =~= run@.take(i as int));
        let candidate = run[i];
        let spaces = column.saturating_sub(candidate.code_column);
        let spaces = if spaces < 2 {
            2
        } else {
            spaces
        };
        output.insert(candidate.comment_start, to_u16_saturating(spaces));
        i = i + 1;
    }
    assert(run@.take(i as int) =~= run@);
    run.clear();
}

/// The comment run continues with `candidate` when the run is empty, or the
/// candidate is of the same family and its line follows the run's last line
/// directly.
pub open spec fn continues_comment_run(run: Seq<CommentCandidate>, candidate: CommentCandidate) -> bool {
    run.len() == 0 || (candidate.family == run.last().family && candidate.line_start == run.last().line_end)
}

/// State after scanning the first `n` statements for comment alignment:
/// the open run and the spacing recorded so far.
pub open spec fn comment_scan(
    statements: Seq<Stmt>,
    n: int,
    source: Seq<u8>,
    assignments: Map<u32, u16>,
    annotations: Map<u32, u16>,
    comments: Map<u32, u16>,
) -> (Seq<CommentCandidate>, Map<u32, u16>)
    decreases n,
{
    if n <= 0 {
        (Seq::empty(), comments)
    } else {
        let (run, out) = comment_scan(statements, n - 1, source, assignments, annotations, comments);
        match spec_comment_candidate(statements[n - 1], source, assignments, annotations) {
            Some(c) => if continues_comment_run(run, c) {
                (run.push(c), out)
            } else {
                (seq![c], spec_finish_comment_run(run, out))
            },
            None => (Seq::empty(), spec_finish_comment_run(run, out)),
        }
    }
}

/// Spacing of trailing comments after all statements are scanned and the
/// last run is finished.
pub open spec fn spec_align_comments(
    statements: Seq<Stmt>,
    source: Seq<u8>,
    assignments: Map<u32, u16>,
    annotations: Map<u32, u16>,
    comments: Map<u32, u16>,
) -> Map<u32, u16> {
    let scan = comment_scan(statements, statements.len() as int, source, assignments, annotations, comments);
    spec_finish_comment_run(scan.0, scan.1)
}

/// Records the spacing of runs of aligned trailing comments.
pub fn align_comments(statements: &[Stmt], source: &[u8], layout: &mut HorizontalLayout)
    requires
        forall|i: int| 0 <= i < statements@.len() ==> stmt_wf(#[trigger] statements@[i], source@.len()),
    ensures
        final(layout).comments@ == spec_align_comments(
            statements@,
            source@,
            old(layout).assignments@,
            old(layout).annotations@,
            old(layout).comments@,
        ),
        final(layout).assignments@ == old(layout).assignments@,
        final(layout).annotations@ == old(layout).annotations@,
{
    let mut run: Vec<CommentCandidate> = Vec::new();
    let mut i: usize = 0;
    while i < statements.len()
        invariant
            i <= statements@.len(),
            forall|j: int| 0 <= j < statements@.len() ==> stmt_wf(#[trigger] statements@[j], source@.len()),
            layout.assignments@ == old(layout).assignments@,
            layout.annotations@ == old(layout).annotations@,
            (run@, layout.comments@) == comment_scan(
                statements@,
                i as int,
                source@,
                old(layout).assignments@,
                old(layout).annotations@,
                old(layout).comments@,
            ),
        decreases statements@.len() - i,
    {
        let candidate = comment_candidate(&statements[i], source, layout);
        let continues = match candidate {
            Some(c) => run.len() == 0 || (c.family == run[run.len() - 1].family && c.line_start
                == run[run.len() - 1].line_end),
            None => false,
        };
        if continues {
            match candidate {
                Some(c) => run.push(c),
                None => {},
            }
        } else {
            finish_comment_run(&mut run, &mut layout.comments);
            match candidate {
                Some(c) => {
                    run.push(c);
                    assert(run@ =~= seq![c]);
                },
                None => {},
            }
        }
        i = i + 1;
    }
    finish_comment_run(&mut run, &mut layout.comments);
}

/// Spacing for the statements of a block: operators first, then trailing
/// comments, which see where the aligned operators leave the code's end.
pub fn horizontal_layout(statements: &[Stmt], source: &[u8]) -> (r: HorizontalLayout)
    requires
        forall|i: int| 0 <= i < statements@.len() ==> stmt_wf(#[trigger] statements@[i], source@.len()),
    ensures
        (r.assignments@, r.annotations@) == spec_align_operators(
            statements@,
            source@,
            Map::empty(),
            Map::empty(),
        ),
        r.comments@ == spec_align_comments(
            statements@,
            source@,
            r.assignments@,
            r.annotations@,
            Map::empty(),
        ),
{
    let mut layout = HorizontalLayout {
        assignments: HashMap::new(),
        annotations: HashMap::new(),
        comments: HashMap::new(),
    };
    align_operators(statements, source, &mut layout);
    align_comments(statements, source, &mut layout);
    layout
}

/// The bytes of the line that holds the comment, without trailing white
/// space.
pub open spec fn spec_comment_line(comment: SourceComment, source: Seq<u8>) -> Seq<u8> {
    let line_start = spec_line_start(comment.range.start as int, source);
    let line_end = match find_from(source, 10u8, comment.range.end as int) {
        Some(i) => i,
        None => source.len() as int,
    };
    source.subrange(line_start, trimmed_end(source, line_start, line_end))
}

/// The line of the comment, without trailing white space, takes more than
/// `width` columns: each character its display width, a tab `indent_width`.
pub open spec fn spec_comment_exceeds_line_width(
    comment: SourceComment,
    source: Seq<u8>,
    width: u16,
    indent_width: u32,
) -> bool {
    utf8_columns(spec_comment_line(comment, source), indent_width) > width
}

/// Whether the line that holds the comment, without trailing white space,
/// is wider than `width` columns; a tab takes `indent_width` columns.
pub fn comment_exceeds_line_width(
    comment: &SourceComment,
    source: &[u8],
    width: u16,
    indent_width: u32,
) -> (r: bool)
    requires
        comment.range.start <= comment.range.end <= source@.len(),
    ensures
        r == spec_comment_exceeds_line_width(*comment, source@, width, indent_width),
        valid_utf8(spec_comment_line(*comment, source@)) ==> r == (columns_sum(
            decode_utf8(spec_comment_line(*comment, source@)),
            indent_width,
        ) > width),
{
    let line_start = source_line_start(comment.range.start, source) as usize;
    let line_end = match find_byte(source, 10u8, comment.range.end as usize) {
        Some(offset) => {
            proof {
                lemma_find_from(source@, 10u8, comment.range.end as int);
            }
            offset
        },
        None => source.len(),
    };
    let trimmed = trim_end_index(source, line_start, line_end);
    proof {
        if valid_utf8(spec_comment_line(*comment, source@)) {
            lemma_utf8_columns_decode(spec_comment_line(*comment, source@), indent_width);
        }
    }
    columns_exceed(source, line_start, trimmed, width as u32, indent_width)
}

/// Every spacing recorded in `m` is at least `least`.
pub open spec fn all_at_least(m: Map<u32, u16>, least: u16) -> bool {
    forall|key: u32| m.contains_key(key) ==> #[trigger] m[key] >= least
}

proof fn lemma_insert_operator_run_at_least(run: Seq<OperatorCandidate>, column: u32, out: Map<u32, u16>)
    requires
        all_at_least(out, 1),
    ensures
        all_at_least(insert_operator_run(run, column, out), 1),
    decreases run.len(),
{
    if run.len() > 0 {
        lemma_insert_operator_run_at_least(run.drop_last(), column, out);
    }
}

proof fn lemma_insert_comment_run_at_least(run: Seq<CommentCandidate>, column: u32, out: Map<u32, u16>)
    requires
        all_at_least(out, 2),
    ensures
        all_at_least(insert_comment_run(run, column, out), 2),
    decreases run.len(),
{
    if run.len() > 0 {
        lemma_insert_comment_run_at_least(run.drop_last(), column, out);
    }
}

proof fn lemma_operator_scan_at_least(
    statements: Seq<Stmt>,
    n: int,
    source: Seq<u8>,
    assignments: Map<u32, u16>,
    annotations: Map<u32, u16>,
)
    requires
        all_at_least(assignments, 1),
        all_at_least(annotations, 1),
    ensures
        all_at_least(operator_scan(statements, n, source, assignments, annotations).2, 1),
        all_at_least(operator_scan(statements, n, source, assignments, annotations).3, 1),
    decreases n,
{
    if n > 0 {
        lemma_operator_scan_at_least(statements, n - 1, source, assignments, annotations);
        let prev = operator_scan(statements, n - 1, source, assignments, annotations);
        lemma_insert_operator_run_at_least(prev.0, max_operator_column(prev.0), prev.2);
        lemma_insert_operator_run_at_least(prev.1, max_operator_column(prev.1), prev.3);
    }
}

proof fn lemma_comment_scan_at_least(
    statements: Seq<Stmt>,
    n: int,
    source: Seq<u8>,
    assignments: Map<u32, u16>,
    annotations: Map<u32, u16>,
    comments: Map<u32, u16>,
)
    requires
        all_at_least(comments, 2),
    ensures
        all_at_least(comment_scan(statements, n, source, assignments, annotations, comments).1, 2),
    decreases n,
{
    if n > 0 {
        lemma_comment_scan_at_least(statements, n - 1, source, assignments, annotations, comments);
        let prev = comment_scan(statements, n - 1, source, assignments, annotations, comments);
        lemma_insert_comment_run_at_least(prev.0, max_comment_column(prev.0), prev.1);
    }
}

/// Alignment never glues code together: every space count that the layout
/// of a block records is at least one before an `=` or an annotation, and
/// at least two before a trailing comment.
pub proof fn lemma_horizontal_layout_spacing(statements: Seq<Stmt>, source: Seq<u8>)
    ensures
        all_at_least(spec_align_operators(statements, source, Map::empty(), Map::empty()).0, 1),
        all_at_least(spec_align_operators(statements, source, Map::empty(), Map::empty()).1, 1),
        forall|assignments: Map<u32, u16>, annotations: Map<u32, u16>|
            all_at_least(
                #[trigger] spec_align_comments(statements, source, assignments, annotations, Map::empty()),
                2,
            ),
{
    let n = statements.len() as int;
    lemma_operator_scan_at_least(statements, n, source, Map::empty(), Map::empty());
    let scan = operator_scan(statements, n, source, Map::empty(), Map::empty());
    lemma_insert_operator_run_at_least(scan.0, max_operator_column(scan.0), scan.2);
    lemma_insert_operator_run_at_least(scan.1, max_operator_column(scan.1), scan.3);
    assert forall|assignments: Map<u32, u16>, annotations: Map<u32, u16>|
        all_at_least(
            #[trigger] spec_align_comments(statements, source, assignments, annotations, Map::empty()),
            2,
        ) by {
        lemma_comment_scan_at_least(statements, n, source, assignments, annotations, Map::empty());
        let cscan = comment_scan(statements, n, source, assignments, annotations, Map::empty());
        lemma_insert_comment_run_at_least(cscan.0, max_comment_column(cscan.0), cscan.1);
    }
}

proof fn lemma_max_operator_column(run: Seq<OperatorCandidate>, i: int)
    requires
        0 <= i < run.len(),
    ensures
        run[i].operator_column <= max_operator_column(run),
    decreases run.len(),
{
    if i < run.len() - 1 {
        lemma_max_operator_column(run.drop_last(), i);
    }
}

proof fn lemma_max_comment_column(run: Seq<CommentCandidate>, i: int)
    requires
        0 <= i < run.len(),
    ensures
        comment_target(run[i]) <= max_comment_column(run),
    decreases run.len(),
{
    if i < run.len() - 1 {
        lemma_max_comment_column(run.drop_last(), i);
    }
}

proof fn lemma_insert_operator_run_value(run: Seq<OperatorCandidate>, column: u32, out: Map<u32, u16>, i: int)
    requires
        0 <= i < run.len(),
        forall|j: int, k: int| 0 <= j < k < run.len() ==> run[j].statement_start != run[k].statement_start,
    ensures
        insert_operator_run(run, column, out).contains_key(run[i].statement_start),
        insert_operator_run(run, column, out)[run[i].statement_start] == operator_spaces(column, run[i]),
    decreases run.len(),
{
    if i < run.len() - 1 {
        lemma_insert_operator_run_value(run.drop_last(), column, out, i);
    }
}

proof fn lemma_insert_comment_run_value(run: Seq<CommentCandidate>, column: u32, out: Map<u32, u16>, i: int)
    requires
        0 <= i < run.len(),
        forall|j: int, k: int| 0 <= j < k < run.len() ==> run[j].comment_start != run[k].comment_start,
    ensures
        insert_comment_run(run, column, out).contains_key(run[i].comment_start),
        insert_comment_run(run, column, out)[run[i].comment_start] == comment_spaces(column, run[i]),
    decreases run.len(),
{
    if i < run.len() - 1 {
        lemma_insert_comment_run_value(run.drop_last(), column, out, i);
    }
}

/// When a run of at least two assignments (or annotations), one of them
/// spaced out in the source, is finished, every operator gets the spaces
/// that put it at the run's rightmost operator column (at least one space):
/// the operators of the run line up.
pub proof fn lemma_operator_run_aligned(run: Seq<OperatorCandidate>, out: Map<u32, u16>, i: int)
    requires
        operator_run_qualifies(run),
        0 <= i < run.len(),
        forall|j: int, k: int| 0 <= j < k < run.len() ==> run[j].statement_start != run[k].statement_start,
    ensures
        ({
            let column = max_operator_column(run);
            let spacing = spec_finish_operator_run(run, out);
            let c = run[i];
            &&& c.operator_column <= column
            &&& spacing.contains_key(c.statement_start)
            &&& spacing[c.statement_start] == operator_spaces(column, c)
            &&& spacing[c.statement_start] >= 1
            &&& (c.adjacent_column < column && column - c.adjacent_column <= 0xFFFF ==> c.adjacent_column
                + spacing[c.statement_start] == column)
        }),
{
    lemma_max_operator_column(run, i);
    lemma_insert_operator_run_value(run, max_operator_column(run), out, i);
}

/// When a run of at least two trailing comments of one family, one of them
/// standing four or more spaces after its code, is finished, every comment
/// gets the spaces that put it at the run's common comment column, which is
/// at least two columns after every line's code: the comments line up.
pub proof fn lemma_comment_run_aligned(run: Seq<CommentCandidate>, out: Map<u32, u16>, i: int)
    requires
        comment_run_qualifies(run),
        0 <= i < run.len(),
        forall|j: int, k: int| 0 <= j < k < run.len() ==> run[j].comment_start != run[k].comment_start,
    ensures
        ({
            let column = max_comment_column(run);
            let spacing = spec_finish_comment_run(run, out);
            let c = run[i];
            &&& c.comment_column <= column
            &&& spacing.contains_key(c.comment_start)
            &&& spacing[c.comment_start] == comment_spaces(column, c)
            &&& spacing[c.comment_start] >= 2
            &&& (c.code_column + 2 <= u32::MAX && column - c.code_column <= 0xFFFF ==> c.code_column
                + spacing[c.comment_start] == column)
        }),
{
    lemma_max_comment_column(run, i);
    lemma_insert_comment_run_value(run, max_comment_column(run), out, i);
}

/// Pushing a candidate always keeps it: afterwards the run ends with it.
/// Where it does not continue the run, the run is finished and it starts
/// the next one on its own.
pub proof fn lemma_push_operator_candidate_keeps_it(
    c: OperatorCandidate,
    run: Seq<OperatorCandidate>,
    out: Map<u32, u16>,
)
    ensures
        ({
            let (next, spacing) = spec_push_operator_candidate(Some(c), run, out);
            &&& next.len() > 0
            &&& next.last() == c
            &&& next.drop_last() == run || next == seq![c]
            &&& (run.len() > 0 && c.line_start != run.last().line_end) ==> next == seq![c] && spacing
                == spec_finish_operator_run(run, out)
        }),
{
    let next = spec_push_operator_candidate(Some(c), run, out).0;
    if run.len() == 0 || c.line_start == run.last().line_end {
        assert(next.drop_last() =~= run);
    }
}

/// Where the `=` candidates of statements `k..m` stand on consecutive lines
/// and statement `k` does not continue the line of the candidate before it
/// (there is none, or it does not end where `k` starts), the run open after
/// scanning statement `m - 1` is exactly those candidates, in order:
/// whatever came before, the block forms a run of its own.
pub proof fn lemma_assignment_block_is_run(
    statements: Seq<Stmt>,
    source: Seq<u8>,
    assignments: Map<u32, u16>,
    annotations: Map<u32, u16>,
    k: int,
    m: int,
)
    requires
        0 <= k < m <= statements.len(),
        forall|j: int| k <= j < m ==> (#[trigger] spec_operator_candidates(statements[j], source)).0 is Some,
        forall|i: int, j: int|
            #![trigger statements[i], statements[j]]
            k <= i && j == i + 1 && j < m ==> spec_operator_candidates(statements[j], source).0.unwrap().line_start
                == spec_operator_candidates(statements[i], source).0.unwrap().line_end,
        k > 0 && spec_operator_candidates(statements[k - 1], source).0 is Some ==> spec_operator_candidates(
            statements[k],
            source,
        ).0.unwrap().line_start != spec_operator_candidates(statements[k - 1], source).0.unwrap().line_end,
    ensures
        operator_scan(statements, m, source, assignments, annotations).0 == Seq::new(
            (m - k) as nat,
            |i: int| spec_operator_candidates(statements[k + i], source).0.unwrap(),
        ),
    decreases m - k,
{
    let block = Seq::new((m - k) as nat, |i: int| spec_operator_candidates(statements[k + i], source).0.unwrap());
    let prev = operator_scan(statements, m - 1, source, assignments, annotations);
    let c = spec_operator_candidates(statements[m - 1], source).0.unwrap();
    lemma_push_operator_candidate_keeps_it(c, prev.0, prev.2);
    if m == k + 1 {
        if k > 0 {
            let before = operator_scan(statements, k - 1, source, assignments, annotations);
            match spec_operator_candidates(statements[k - 1], source).0 {
                Some(p) => {
                    lemma_push_operator_candidate_keeps_it(p, before.0, before.2);
                    assert(prev.0.last() == p);
                },
                None => {
                    assert(prev.0.len() == 0);
                },
            }
        }
        assert(block =~= seq![c]);
    } else {
        lemma_assignment_block_is_run(statements, source, assignments, annotations, k, m - 1);
        assert(statements[m - 2] == statements[m - 2] && statements[m - 1] == statements[m - 1]);
        assert(prev.0.last() == spec_operator_candidates(statements[m - 2], source).0.unwrap());
        assert(block =~= prev.0.push(c));
    }
}

/// When the statement after such a block brings no `=` candidate, or one
/// that does not continue the block's last line, the block's run is
/// finished: the spacing becomes that of `spec_finish_operator_run` on the
/// block, which lines up its `=` (`lemma_operator_run_aligned`).
pub proof fn lemma_assignment_block_finished(
    statements: Seq<Stmt>,
    source: Seq<u8>,
    assignments: Map<u32, u16>,
    annotations: Map<u32, u16>,
    k: int,
    m: int,
)
    requires
        0 <= k < m < statements.len(),
        forall|j: int| k <= j < m ==> (#[trigger] spec_operator_candidates(statements[j], source)).0 is Some,
        forall|i: int, j: int|
            #![trigger statements[i], statements[j]]
            k <= i && j == i + 1 && j < m ==> spec_operator_candidates(statements[j], source).0.unwrap().line_start
                == spec_operator_candidates(statements[i], source).0.unwrap().line_end,
        k > 0 && spec_operator_candidates(statements[k - 1], source).0 is Some ==> spec_operator_candidates(
            statements[k],
            source,
        ).0.unwrap().line_start != spec_operator_candidates(statements[k - 1], source).0.unwrap().line_end,
        spec_operator_candidates(statements[m], source).0 is Some ==> spec_operator_candidates(
            statements[m],
            source,
        ).0.unwrap().line_start != spec_operator_candidates(statements[m - 1], source).0.unwrap().line_end,
    ensures
        operator_scan(statements, m + 1, source, assignments, annotations).2 == spec_finish_operator_run(
            Seq::new((m - k) as nat, |i: int| spec_operator_candidates(statements[k + i], source).0.unwrap()),
            operator_scan(statements, m, source, assignments, annotations).2,
        ),
{
    lemma_assignment_block_is_run(statements, source, assignments, annotations, k, m);
    let run = operator_scan(statements, m, source, assignments, annotations).0;
    assert(run.last() == spec_operator_candidates(statements[m - 1], source).0.unwrap());
}

/// The candidates of a run of comments stand on consecutive lines, one
/// family throughout.
pub open spec fn comment_run_chained(run: Seq<CommentCandidate>) -> bool {
    forall|i: int, j: int|
        #![trigger run[i], run[j]]
        0 <= i && j == i + 1 && j < run.len() ==> run[j].line_start == run[i].line_end && run[j].family
            == run[i].family
}

/// Every run of comments that the scan builds, and so every run that gets
/// spacing when it is finished, is chained: comments are aligned together
/// only across directly consecutive lines of one family.
pub proof fn lemma_comment_runs_chained(
    statements: Seq<Stmt>,
    n: int,
    source: Seq<u8>,
    assignments: Map<u32, u16>,
    annotations: Map<u32, u16>,
    comments: Map<u32, u16>,
)
    ensures
        comment_run_chained(comment_scan(statements, n, source, assignments, annotations, comments).0),
    decreases n,
{
    if n > 0 {
        lemma_comment_runs_chained(statements, n - 1, source, assignments, annotations, comments);
        let run = comment_scan(statements, n - 1, source, assignments, annotations, comments).0;
        match spec_comment_candidate(statements[n - 1], source, assignments, annotations) {
            Some(c) => if continues_comment_run(run, c) {
                let next = run.push(c);
                assert forall|i: int, j: int|
                    #![trigger next[i], next[j]]
                    0 <= i && j == i + 1 && j < next.len() implies next[j].line_start == next[i].line_end
                        && next[j].family == next[i].family by {
                    assert(next[i] == run[i]);
                    if j < run.len() {
                        assert(next[j] == run[j]);
                    } else {
                        assert(run.last() == run[i]);
                    }
                }
            },
            None => {},
        }
    }
}

/// Where no statement's trailing comment stands on the line right after
/// the previous statement's comment line, no comment is aligned: the
/// spacing of comments is left as it was.
pub proof fn lemma_separated_comments_not_aligned(
    statements: Seq<Stmt>,
    source: Seq<u8>,
    assignments: Map<u32, u16>,
    annotations: Map<u32, u16>,
    comments: Map<u32, u16>,
)
    requires
        forall|i: int, j: int|
            #![trigger statements[i], statements[j]]
            0 <= i && j == i + 1 && j < statements.len() && spec_comment_candidate(
                statements[j],
                source,
                assignments,
                annotations,
            ) is Some && spec_comment_candidate(statements[i], source, assignments, annotations) is Some
                ==> spec_comment_candidate(statements[j], source, assignments, annotations).unwrap().line_start
                != spec_comment_candidate(statements[i], source, assignments, annotations).unwrap().line_end,
    ensures
        spec_align_comments(statements, source, assignments, annotations, comments) == comments,
{
    lemma_separated_comment_scan(statements, statements.len() as int, source, assignments, annotations, comments);
}

proof fn lemma_separated_comment_scan(
    statements: Seq<Stmt>,
    n: int,
    source: Seq<u8>,
    assignments: Map<u32, u16>,
    annotations: Map<u32, u16>,
    comments: Map<u32, u16>,
)
    requires
        0 <= n <= statements.len(),
        forall|i: int, j: int|
            #![trigger statements[i], statements[j]]
            0 <= i && j == i + 1 && j < statements.len() && spec_comment_candidate(
                statements[j],
                source,
                assignments,
                annotations,
            ) is Some && spec_comment_candidate(statements[i], source, assignments, annotations) is Some
                ==> spec_comment_candidate(statements[j], source, assignments, annotations).unwrap().line_start
                != spec_comment_candidate(statements[i], source, assignments, annotations).unwrap().line_end,
    ensures
        ({
            let (run, out) = comment_scan(statements, n, source, assignments, annotations, comments);
            &&& out == comments
            &&& run.len() <= 1
            &&& run.len() == 1 ==> n > 0 && spec_comment_candidate(statements[n - 1], source, assignments, annotations)
                == Some(run[0])
        }),
    decreases n,
{
    if n > 0 {
        lemma_separated_comment_scan(statements, n - 1, source, assignments, annotations, comments);
        let run = comment_scan(statements, n - 1, source, assignments, annotations, comments).0;
        assert(!comment_run_qualifies(run));
        match spec_comment_candidate(statements[n - 1], source, assignments, annotations) {
            Some(c) => {
                if run.len() == 1 {
                    assert(run.last() == run[0]);
                    assert(statements[n - 2] == statements[n - 2] && statements[n - 1] == statements[n - 1]);
                    assert(!continues_comment_run(run, c));
                }
            },
            None => {},
        }
    }
}

proof fn lemma_insert_operator_run_keys(run: Seq<OperatorCandidate>, column: u32, out: Map<u32, u16>, i: int)
    requires
        0 <= i < run.len(),
    ensures
        insert_operator_run(run, column, out).contains_key(run[i].statement_start),
    decreases run.len(),
{
    if i < run.len() - 1 {
        lemma_insert_operator_run_keys(run.drop_last(), column, out, i);
    }
}

proof fn lemma_insert_comment_run_keys(run: Seq<CommentCandidate>, column: u32, out: Map<u32, u16>, i: int)
    requires
        0 <= i < run.len(),
    ensures
        insert_comment_run(run, column, out).contains_key(run[i].comment_start),
    decreases run.len(),
{
    if i < run.len() - 1 {
        lemma_insert_comment_run_keys(run.drop_last(), column, out, i);
    }
}

/// Finishing a run of `=` (or annotation) candidates records nothing unless
/// it holds two or more statements of which the source spaced one out by at
/// least two spaces; when it does, every statement of the run gets spacing.
pub proof fn lemma_operator_run_threshold(run: Seq<OperatorCandidate>, out: Map<u32, u16>)
    ensures
        (run.len() < 2 || forall|i: int| 0 <= i < run.len() ==> (#[trigger] run[i]).source_spaces < 2)
            ==> spec_finish_operator_run(run, out) == out,
        (run.len() >= 2 && exists|i: int| 0 <= i < run.len() && (#[trigger] run[i]).source_spaces >= 2)
            ==> forall|i: int|
            0 <= i < run.len() ==> spec_finish_operator_run(run, out).contains_key((#[trigger] run[i]).statement_start),
{
    if run.len() >= 2 && exists|i: int| 0 <= i < run.len() && (#[trigger] run[i]).source_spaces >= 2 {
        assert forall|i: int| 0 <= i < run.len() implies spec_finish_operator_run(run, out).contains_key(
            (#[trigger] run[i]).statement_start,
        ) by {
            lemma_insert_operator_run_keys(run, max_operator_column(run), out, i);
        }
    }
}

/// Finishing a run of comments records nothing unless it holds two or more
/// comments of which one stood at least four spaces after its code in the
/// source; when it does, every comment of the run gets spacing.
pub proof fn lemma_comment_run_threshold(run: Seq<CommentCandidate>, out: Map<u32, u16>)
    ensures
        (run.len() < 2 || forall|i: int| 0 <= i < run.len() ==> (#[trigger] run[i]).source_spaces < 4)
            ==> spec_finish_comment_run(run, out) == out,
        (run.len() >= 2 && exists|i: int| 0 <= i < run.len() && (#[trigger] run[i]).source_spaces >= 4)
            ==> forall|i: int|
            0 <= i < run.len() ==> spec_finish_comment_run(run, out).contains_key((#[trigger] run[i]).comment_start),
{
    if run.len() >= 2 && exists|i: int| 0 <= i < run.len() && (#[trigger] run[i]).source_spaces >= 4 {
        assert forall|i: int| 0 <= i < run.len() implies spec_finish_comment_run(run, out).contains_key(
            (#[trigger] run[i]).comment_start,
        ) by {
            lemma_insert_comment_run_keys(run, max_comment_column(run), out, i);
        }
    }
}

} // verus!
