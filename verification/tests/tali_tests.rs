use std::collections::HashMap;

use tali_layout::ast::{LinePosition, SourceComment, Stmt, StmtKind, StmtTag, TextRange};
use tali_layout::tali::{
    align_comments, align_operators, comment_candidate, comment_exceeds_line_width, find_operator,
    finish_comment_run, finish_operator_run, formatted_statement_end_column, horizontal_layout,
    next_line_start, operator_candidates, push_operator_candidate, source_column, source_line_start,
    CommentCandidate, CommentFamily, HorizontalLayout, OperatorCandidate,
};

fn range(source: &str, text: &str, from: usize) -> TextRange {
    let start = from + source[from..].find(text).unwrap();
    TextRange { start: start as u32, end: (start + text.len()) as u32 }
}

/// `target = value` on the line that starts at `line`.
fn assign(source: &str, line: usize, target: &str, value: &str) -> Stmt {
    let target = range(source, target, line);
    let value = range(source, value, target.end as usize);
    Stmt {
        kind: StmtKind::Assign { targets: vec![target], value },
        range: TextRange { start: target.start, end: value.end },
        trailing_comments: Vec::new(),
    }
}

/// `target: annotation` or `target: annotation = value` at `line`.
fn ann_assign(source: &str, line: usize, target: &str, annotation: &str, value: Option<&str>) -> Stmt {
    let target = range(source, target, line);
    let annotation = range(source, annotation, target.end as usize + 1);
    let value = value.map(|v| range(source, v, annotation.end as usize));
    let end = value.map_or(annotation.end, |v| v.end);
    Stmt {
        kind: StmtKind::AnnAssign { target, annotation, value },
        range: TextRange { start: target.start, end },
        trailing_comments: Vec::new(),
    }
}

fn with_comment(mut statement: Stmt, source: &str, comment: &str) -> Stmt {
    statement.trailing_comments.push(SourceComment {
        range: range(source, comment, statement.range.end as usize),
        line_position: LinePosition::EndOfLine,
    });
    statement
}

fn empty_layout() -> HorizontalLayout {
    HorizontalLayout { assignments: HashMap::new(), annotations: HashMap::new(), comments: HashMap::new() }
}

#[test]
fn positions_in_lines() {
    let s = b"ab\ncde\n";
    assert_eq!(source_column(0, s), 0);
    assert_eq!(source_column(2, s), 2);
    assert_eq!(source_column(5, s), 2);
    assert_eq!(source_line_start(5, s), 3);
    assert_eq!(source_line_start(1, s), 0);
    assert_eq!(next_line_start(1, s), Some(3));
    assert_eq!(next_line_start(3, s), Some(7));
    assert_eq!(next_line_start(7, s), Some(7));
    assert_eq!(next_line_start(8, s), None);
}

#[test]
fn next_line_start_needs_a_char_boundary() {
    let s = "é\n".as_bytes();
    assert_eq!(next_line_start(1, s), None);
    assert_eq!(next_line_start(0, s), Some(3));
}

#[test]
fn find_operator_within_range() {
    let s = b"a  =  b == c";
    assert_eq!(find_operator(0, 12, b"=", s), Some(3));
    assert_eq!(find_operator(4, 12, b"==", s), Some(8));
    assert_eq!(find_operator(0, 3, b"=", s), None);
}

#[test]
fn assignment_candidates() {
    let s = "a = 1\nlong_name  = 2\n";
    let first = assign(s, 0, "a", "1");
    let second = assign(s, 6, "long_name", "2");
    assert_eq!(
        operator_candidates(&first, s.as_bytes()),
        (
            Some(OperatorCandidate {
                statement_start: 0,
                line_start: 0,
                line_end: 6,
                operator_column: 2,
                adjacent_column: 1,
                source_spaces: 1,
            }),
            None
        )
    );
    assert_eq!(
        operator_candidates(&second, s.as_bytes()).0,
        Some(OperatorCandidate {
            statement_start: 6,
            line_start: 6,
            line_end: 21,
            operator_column: 11,
            adjacent_column: 9,
            source_spaces: 2,
        })
    );
}

#[test]
fn annotation_candidates() {
    let s = "x:   int = 3\n";
    let statement = ann_assign(s, 0, "x", "int", Some("3"));
    let (assigned, annotated) = operator_candidates(&statement, s.as_bytes());
    assert_eq!(
        annotated,
        Some(OperatorCandidate {
            statement_start: 0,
            line_start: 0,
            line_end: 13,
            operator_column: 5,
            adjacent_column: 2,
            source_spaces: 3,
        })
    );
    assert_eq!(assigned.unwrap().operator_column, 9);
    assert_eq!(assigned.unwrap().adjacent_column, 8);
}

#[test]
fn multi_target_assignment_is_no_candidate() {
    let s = "a = b = 1\n";
    let a = range(s, "a", 0);
    let b = range(s, "b", 0);
    let value = range(s, "1", 0);
    let statement = Stmt {
        kind: StmtKind::Assign { targets: vec![a, b], value },
        range: TextRange { start: 0, end: 9 },
        trailing_comments: Vec::new(),
    };
    assert_eq!(operator_candidates(&statement, s.as_bytes()), (None, None));
}

#[test]
fn operator_runs_align_to_the_rightmost_operator() {
    let s = "a = 1\nlong_name  = 2\n";
    let statements = vec![assign(s, 0, "a", "1"), assign(s, 6, "long_name", "2")];
    let mut layout = empty_layout();
    align_operators(&statements, s.as_bytes(), &mut layout);
    assert_eq!(layout.assignments.len(), 2);
    assert_eq!(layout.assignments[&0], 10);
    assert_eq!(layout.assignments[&6], 2);
    assert!(layout.annotations.is_empty());
}

#[test]
fn operator_runs_are_not_forced() {
    let s = "a = 1\nlong_name = 2\n";
    let statements = vec![assign(s, 0, "a", "1"), assign(s, 6, "long_name", "2")];
    let mut layout = empty_layout();
    align_operators(&statements, s.as_bytes(), &mut layout);
    assert!(layout.assignments.is_empty());
}

#[test]
fn operator_runs_break_at_blank_lines() {
    let s = "a  = 1\n\nbb = 2\n";
    let statements = vec![assign(s, 0, "a", "1"), assign(s, 8, "bb", "2")];
    let mut layout = empty_layout();
    align_operators(&statements, s.as_bytes(), &mut layout);
    assert!(layout.assignments.is_empty());
}

#[test]
fn finishing_runs() {
    let candidate = |start: u32, operator: u32, adjacent: u32| OperatorCandidate {
        statement_start: start,
        line_start: start,
        line_end: start + 10,
        operator_column: operator,
        adjacent_column: adjacent,
        source_spaces: operator - adjacent,
    };
    let mut run = vec![candidate(0, 4, 1), candidate(10, 6, 3), candidate(20, 5, 5)];
    let mut output = HashMap::new();
    finish_operator_run(&mut run, &mut output);
    assert!(run.is_empty());
    assert_eq!(output[&0], 5);
    assert_eq!(output[&10], 3);
    assert_eq!(output[&20], 1);

    let mut single = vec![candidate(0, 9, 1)];
    let mut output = HashMap::new();
    finish_operator_run(&mut single, &mut output);
    assert!(single.is_empty());
    assert!(output.is_empty());
}

#[test]
fn pushing_candidates() {
    let candidate = |start: u32, end: u32| OperatorCandidate {
        statement_start: start,
        line_start: start,
        line_end: end,
        operator_column: 3,
        adjacent_column: 1,
        source_spaces: 2,
    };
    let mut run = Vec::new();
    let mut output = HashMap::new();
    push_operator_candidate(Some(candidate(0, 5)), &mut run, &mut output);
    push_operator_candidate(Some(candidate(5, 9)), &mut run, &mut output);
    assert_eq!(run.len(), 2);
    push_operator_candidate(None, &mut run, &mut output);
    assert!(run.is_empty());
    assert_eq!(output.len(), 2);
    assert_eq!(output[&0], 2);
}

#[test]
fn statement_end_columns() {
    let s = "a = 1  # c\n";
    let statement = assign(s, 0, "a", "1");
    let mut layout = empty_layout();
    assert_eq!(formatted_statement_end_column(&statement, s.as_bytes(), &layout), 5);
    layout.assignments.insert(0, 4);
    assert_eq!(formatted_statement_end_column(&statement, s.as_bytes(), &layout), 8);
    let s = "x: int = 3\n";
    let statement = ann_assign(s, 0, "x", "int", Some("3"));
    layout.assignments.clear();
    assert_eq!(formatted_statement_end_column(&statement, s.as_bytes(), &layout), 10);
}

#[test]
fn comment_candidates() {
    let s = "x = 1    # one\n";
    let statement = with_comment(assign(s, 0, "x", "1"), s, "# one");
    let layout = empty_layout();
    assert_eq!(
        comment_candidate(&statement, s.as_bytes(), &layout),
        Some(CommentCandidate {
            family: CommentFamily::Assignment,
            line_start: 0,
            comment_start: 9,
            line_end: 15,
            comment_column: 9,
            code_column: 5,
            source_spaces: 4,
        })
    );
    let plain = assign(s, 0, "x", "1");
    assert_eq!(comment_candidate(&plain, s.as_bytes(), &layout), None);
}

#[test]
fn comment_runs_align() {
    let s = "x = 1    # one\nyy = 2  # two\n";
    let statements = vec![
        with_comment(assign(s, 0, "x", "1"), s, "# one"),
        with_comment(assign(s, 15, "yy", "2"), s, "# two"),
    ];
    let layout = horizontal_layout(&statements, s.as_bytes());
    assert!(layout.assignments.is_empty());
    assert_eq!(layout.comments.len(), 2);
    assert_eq!(layout.comments[&9], 4);
    assert_eq!(layout.comments[&23], 3);
}

#[test]
fn comment_runs_are_not_forced() {
    let s = "x = 1  # one\nyy = 2  # two\n";
    let statements = vec![
        with_comment(assign(s, 0, "x", "1"), s, "# one"),
        with_comment(assign(s, 13, "yy", "2"), s, "# two"),
    ];
    let mut layout = empty_layout();
    align_comments(&statements, s.as_bytes(), &mut layout);
    assert!(layout.comments.is_empty());
}

#[test]
fn comment_runs_keep_to_one_family() {
    let s = "x = 1    # one\npass  # two\n";
    let pass = Stmt {
        kind: StmtKind::Other(StmtTag::Pass),
        range: range(s, "pass", 15),
        trailing_comments: Vec::new(),
    };
    let statements = vec![with_comment(assign(s, 0, "x", "1"), s, "# one"), with_comment(pass, s, "# two")];
    let layout = horizontal_layout(&statements, s.as_bytes());
    assert!(layout.comments.is_empty());
}

#[test]
fn finishing_comment_runs() {
    let candidate = |start: u32, comment: u32, code: u32| CommentCandidate {
        family: CommentFamily::Assignment,
        line_start: start,
        comment_start: start + comment,
        line_end: start + 20,
        comment_column: comment,
        code_column: code,
        source_spaces: comment.saturating_sub(code),
    };
    let mut run = vec![candidate(0, 12, 5), candidate(20, 8, 7)];
    let mut output = HashMap::new();
    finish_comment_run(&mut run, &mut output);
    assert!(run.is_empty());
    assert_eq!(output[&12], 7);
    assert_eq!(output[&28], 5);
}

#[test]
fn aligned_layout_spacing_is_never_zero() {
    let s = "a = 1\nlong_name  = 2\nb = 3\n";
    let statements = vec![assign(s, 0, "a", "1"), assign(s, 6, "long_name", "2"), assign(s, 21, "b", "3")];
    let layout = horizontal_layout(&statements, s.as_bytes());
    assert_eq!(layout.assignments.len(), 3);
    for spaces in layout.assignments.values() {
        assert!(*spaces >= 1);
    }
    assert_eq!(layout.assignments[&21] as u32 + 1, 11);
}

#[test]
fn long_comment_lines() {
    let s = "x = 1  # a comment   \ny = 2\n";
    let comment = SourceComment { range: range(s, "# a comment", 0), line_position: LinePosition::EndOfLine };
    assert!(comment_exceeds_line_width(&comment, s.as_bytes(), 17, 4));
    assert!(!comment_exceeds_line_width(&comment, s.as_bytes(), 18, 4));
    let last = "z = 3  # end \u{3000}";
    let comment = SourceComment { range: range(last, "# end", 0), line_position: LinePosition::EndOfLine };
    assert!(comment_exceeds_line_width(&comment, last.as_bytes(), 11, 4));
    assert!(!comment_exceeds_line_width(&comment, last.as_bytes(), 12, 4));
}

#[test]
fn comment_lines_are_measured_in_columns() {
    let s = "x = 1  # \u{e9}\n";
    let comment = SourceComment { range: range(s, "# \u{e9}", 0), line_position: LinePosition::EndOfLine };
    assert_eq!((comment.range.start, comment.range.end), (7, 11));
    assert!(!comment_exceeds_line_width(&comment, s.as_bytes(), 10, 4));
    assert!(comment_exceeds_line_width(&comment, s.as_bytes(), 9, 4));
    let wide = "x = 1  # \u{65e5}\u{672c}\n";
    let comment = SourceComment { range: range(wide, "# \u{65e5}", 0), line_position: LinePosition::EndOfLine };
    assert!(comment_exceeds_line_width(&comment, wide.as_bytes(), 12, 4));
    assert!(!comment_exceeds_line_width(&comment, wide.as_bytes(), 13, 4));
    let tab = "\tx = 1  # c\n";
    let comment = SourceComment { range: range(tab, "# c", 0), line_position: LinePosition::EndOfLine };
    assert!(comment_exceeds_line_width(&comment, tab.as_bytes(), 13, 4));
    assert!(!comment_exceeds_line_width(&comment, tab.as_bytes(), 14, 4));
    assert!(!comment_exceeds_line_width(&comment, tab.as_bytes(), 12, 2));
}
