use tali_layout::ast::{Expr, ExprKind, LinePosition, PyFormatContext, SourceComment, TextRange, UnaryOp};
use tali_layout::expr_list::{
    aligned_column_layouts, collect_leaf_rows, format_aligned_sequence, formatted_scalar,
    formatted_scalar_metrics, is_numeric_scalar, nested_sequence_shape, numeric_metrics,
    row_has_alignment_intent, sequence_elements, needs_parentheses, ColumnLayout, OptionalParentheses, DecimalMetrics, FormatExprList,
    FormatPiece, LeafRow, ListFormat, ScalarMetrics, SequenceKind,
};

fn chars(text: &str) -> Vec<char> {
    text.chars().collect()
}

fn context(source: &str) -> PyFormatContext<'_> {
    PyFormatContext {
        source: source.as_bytes(),
        tali_mode: true,
        indent_width: 4,
        line_width: 88,
        statement_indent: 0,
    }
}

/// A scalar found in `source` at or after `*from`.
fn scalar(source: &str, text: &str, from: &mut usize, kind: ExprKind) -> Expr {
    let start = *from + source[*from..].find(text).unwrap();
    let end = start + text.len();
    *from = end;
    Expr {
        kind,
        range: TextRange { start: start as u32, end: end as u32 },
        elts: Vec::new(),
        leading_comments: Vec::new(),
        dangling_comments: Vec::new(),
        trailing_comments: Vec::new(),
        subtree_has_comments: false,
        printed: Some(chars(text)),
    }
}

fn number(source: &str, text: &str, from: &mut usize) -> Expr {
    scalar(source, text, from, ExprKind::NumberLiteral)
}

fn name(source: &str, text: &str, from: &mut usize) -> Expr {
    scalar(source, text, from, ExprKind::Other)
}

/// A list opening at or after `*from`, whose elements `build` finds.
fn list(source: &str, from: &mut usize, build: &dyn Fn(&mut usize) -> Vec<Expr>) -> Expr {
    let start = *from + source[*from..].find('[').unwrap();
    *from = start + 1;
    let elts = build(from);
    let end = *from + source[*from..].find(']').unwrap() + 1;
    *from = end;
    Expr {
        kind: ExprKind::List,
        range: TextRange { start: start as u32, end: end as u32 },
        elts,
        leading_comments: Vec::new(),
        dangling_comments: Vec::new(),
        trailing_comments: Vec::new(),
        subtree_has_comments: false,
        printed: None,
    }
}

const ALIGNED: &str = "data = [\n    [1,   2.5],\n    [10,  3.25],\n]\n";

fn aligned_list() -> Expr {
    let s = ALIGNED;
    let mut at = 6;
    list(s, &mut at, &|at| {
        vec![
            list(s, at, &|at| vec![number(s, "1", at), number(s, "2.5", at)]),
            list(s, at, &|at| vec![number(s, "10", at), number(s, "3.25", at)]),
        ]
    })
}

fn describe(source: &str, pieces: &[FormatPiece]) -> Vec<String> {
    pieces
        .iter()
        .map(|piece| match piece {
            FormatPiece::Open(SequenceKind::List) => "[".to_string(),
            FormatPiece::Open(SequenceKind::Tuple) => "(".to_string(),
            FormatPiece::Close(SequenceKind::List) => "]".to_string(),
            FormatPiece::Close(SequenceKind::Tuple) => ")".to_string(),
            FormatPiece::Comma => ",".to_string(),
            FormatPiece::Space => "space".to_string(),
            FormatPiece::Padding(n) => format!("pad {}", n),
            FormatPiece::Cell(e) => {
                format!("cell {}", &source[e.range.start as usize..e.range.end as usize])
            },
            FormatPiece::HardLineBreak => "newline".to_string(),
            FormatPiece::StartIndent => "indent".to_string(),
            FormatPiece::EndIndent => "dedent".to_string(),
            FormatPiece::TrailingComments(_) => "comments".to_string(),
        })
        .collect()
}

#[test]
fn numeric_metrics_splits_at_the_decimal_point() {
    let s = context("");
    let m = numeric_metrics(&chars("-12.50"), &s).unwrap();
    assert_eq!(m.width, 6);
    assert_eq!(m.decimal, Some(DecimalMetrics { left_width: 3, right_width: 3 }));
    let m = numeric_metrics(&chars("42"), &s).unwrap();
    assert_eq!(m, ScalarMetrics { width: 2, decimal: Some(DecimalMetrics { left_width: 2, right_width: 0 }) });
    let m = numeric_metrics(&chars("1.2.3"), &s).unwrap();
    assert_eq!(m.decimal, Some(DecimalMetrics { left_width: 1, right_width: 4 }));
}

#[test]
fn numeric_metrics_of_multiline_text_is_none() {
    let s = context("");
    assert_eq!(numeric_metrics(&chars("1\n2"), &s), None);
}

#[test]
fn numeric_metrics_counts_wide_characters() {
    let s = context("");
    let m = numeric_metrics(&chars("１.5"), &s).unwrap();
    assert_eq!(m.width, 4);
    assert_eq!(m.decimal, Some(DecimalMetrics { left_width: 2, right_width: 2 }));
}

#[test]
fn column_layout_width() {
    assert_eq!(ColumnLayout::Left { width: 7 }.width(), 7);
    assert_eq!(ColumnLayout::Decimal { left_width: 3, right_width: 2 }.width(), 5);
    assert_eq!(ColumnLayout::Decimal { left_width: u32::MAX, right_width: 1 }.width(), u32::MAX);
}

#[test]
fn column_layout_padding() {
    let cell = ScalarMetrics { width: 3, decimal: Some(DecimalMetrics { left_width: 1, right_width: 2 }) };
    let text = ScalarMetrics { width: 3, decimal: None };
    let decimal = ColumnLayout::Decimal { left_width: 4, right_width: 3 };
    let left = ColumnLayout::Left { width: 5 };
    assert_eq!(decimal.leading_padding(cell), 3);
    assert_eq!(decimal.trailing_padding(cell), 1);
    assert_eq!(decimal.leading_padding(text), 0);
    assert_eq!(decimal.trailing_padding(text), 0);
    assert_eq!(left.leading_padding(cell), 0);
    assert_eq!(left.trailing_padding(cell), 2);
    assert_eq!(left.trailing_padding(ScalarMetrics { width: 9, decimal: None }), 0);
}

#[test]
fn sequence_delimiters() {
    assert_eq!(SequenceKind::List.delimiters(), ("[", "]"));
    assert_eq!(SequenceKind::Tuple.delimiters(), ("(", ")"));
}

#[test]
fn numeric_scalars() {
    let s = "x";
    let mut at = 0;
    let mut e = name(s, "x", &mut at);
    assert!(!is_numeric_scalar(&e));
    e.kind = ExprKind::NumberLiteral;
    assert!(is_numeric_scalar(&e));
    e.kind = ExprKind::UnaryOp { op: UnaryOp::USub, operand: Box::new(ExprKind::NumberLiteral) };
    assert!(is_numeric_scalar(&e));
    e.kind = ExprKind::UnaryOp { op: UnaryOp::Not, operand: Box::new(ExprKind::NumberLiteral) };
    assert!(!is_numeric_scalar(&e));
    e.kind = ExprKind::UnaryOp { op: UnaryOp::UAdd, operand: Box::new(ExprKind::Other) };
    assert!(!is_numeric_scalar(&e));
}

#[test]
fn formatted_scalar_rejects_line_breaks() {
    let s = "abc";
    let mut at = 0;
    let mut e = name(s, "abc", &mut at);
    assert_eq!(formatted_scalar(&e), Some(&chars("abc")[..]));
    e.printed = Some(chars("a\rb"));
    assert_eq!(formatted_scalar(&e), None);
    e.printed = None;
    assert_eq!(formatted_scalar(&e), None);
}

#[test]
fn scalar_metrics_of_cells() {
    let s = "[foo, 1.5, -2]";
    let ctx = context(s);
    let mut at = 0;
    let foo = name(s, "foo", &mut at);
    let one = number(s, "1.5", &mut at);
    assert_eq!(formatted_scalar_metrics(&foo, &ctx), Some(ScalarMetrics { width: 3, decimal: None }));
    assert_eq!(
        formatted_scalar_metrics(&one, &ctx),
        Some(ScalarMetrics { width: 3, decimal: Some(DecimalMetrics { left_width: 1, right_width: 2 }) })
    );
    let mut commented = name(s, "-2", &mut at);
    commented.subtree_has_comments = true;
    assert_eq!(formatted_scalar_metrics(&commented, &ctx), None);
}

#[test]
fn scalar_metrics_of_multiline_source_is_none() {
    let s = "(a\n)";
    let ctx = context(s);
    let e = Expr {
        kind: ExprKind::Other,
        range: TextRange { start: 0, end: 4 },
        elts: Vec::new(),
        leading_comments: Vec::new(),
        dangling_comments: Vec::new(),
        trailing_comments: Vec::new(),
        subtree_has_comments: false,
        printed: Some(chars("a")),
    };
    assert_eq!(formatted_scalar_metrics(&e, &ctx), None);
}

#[test]
fn shapes_of_nested_sequences() {
    let e = aligned_list();
    assert_eq!(nested_sequence_shape(&e), Some(vec![2, 2]));
    assert_eq!(nested_sequence_shape(&e.elts[0].elts[0]), Some(vec![]));
    let s = "[[1, 2], [3]]";
    let mut at = 0;
    let ragged = list(s, &mut at, &|at| {
        vec![
            list(s, at, &|at| vec![number(s, "1", at), number(s, "2", at)]),
            list(s, at, &|at| vec![number(s, "3", at)]),
        ]
    });
    assert_eq!(nested_sequence_shape(&ragged), None);
    let s = "[]";
    let mut at = 0;
    let empty = list(s, &mut at, &|_| vec![]);
    assert_eq!(nested_sequence_shape(&empty), None);
}

#[test]
fn sequence_elements_of_lists_only() {
    let e = aligned_list();
    let (kind, elements) = sequence_elements(&e).unwrap();
    assert_eq!(kind, SequenceKind::List);
    assert_eq!(elements.len(), 2);
    assert!(sequence_elements(&e.elts[0].elts[0]).is_none());
}

#[test]
fn leaf_rows_of_an_aligned_list() {
    let e = aligned_list();
    let ctx = context(ALIGNED);
    let mut rows: Vec<LeafRow> = Vec::new();
    assert_eq!(collect_leaf_rows(&e, 0, &ctx, &mut rows), Some(()));
    assert_eq!(rows.len(), 2);
    assert_eq!(rows[0].depth, 1);
    assert_eq!(rows[1].elements.len(), 2);
    assert!(row_has_alignment_intent(&rows[0], &ctx));
    assert!(row_has_alignment_intent(&rows[1], &ctx));
}

#[test]
fn leaf_rows_refuse_own_line_comments() {
    let mut e = aligned_list();
    e.elts[1].trailing_comments.push(SourceComment {
        range: TextRange { start: 40, end: 40 },
        line_position: LinePosition::OwnLine,
    });
    let ctx = context(ALIGNED);
    let mut rows: Vec<LeafRow> = Vec::new();
    assert_eq!(collect_leaf_rows(&e, 0, &ctx, &mut rows), None);
}

#[test]
fn column_layouts_of_an_aligned_list() {
    let e = aligned_list();
    let ctx = context(ALIGNED);
    assert_eq!(
        aligned_column_layouts(&e.elts, &ctx),
        Some(vec![
            ColumnLayout::Decimal { left_width: 2, right_width: 0 },
            ColumnLayout::Decimal { left_width: 1, right_width: 3 },
        ])
    );
}

#[test]
fn column_layouts_need_alignment_intent() {
    let s = "data = [\n    [1, 2.5],\n    [10, 3.25],\n]\n";
    let mut at = 6;
    let e = list(s, &mut at, &|at| {
        vec![
            list(s, at, &|at| vec![number(s, "1", at), number(s, "2.5", at)]),
            list(s, at, &|at| vec![number(s, "10", at), number(s, "3.25", at)]),
        ]
    });
    assert_eq!(aligned_column_layouts(&e.elts, &context(s)), None);
}

#[test]
fn column_layouts_of_text_columns_are_left_aligned() {
    let s = "t = [\n    [ab,  1],\n    [c,   22],\n]\n";
    let mut at = 4;
    let e = list(s, &mut at, &|at| {
        vec![
            list(s, at, &|at| vec![name(s, "ab", at), number(s, "1", at)]),
            list(s, at, &|at| vec![name(s, "c", at), number(s, "22", at)]),
        ]
    });
    assert_eq!(
        aligned_column_layouts(&e.elts, &context(s)),
        Some(vec![
            ColumnLayout::Left { width: 2 },
            ColumnLayout::Decimal { left_width: 2, right_width: 0 },
        ])
    );
}

#[test]
fn column_layouts_must_fit_the_line() {
    let e = aligned_list();
    let mut ctx = context(ALIGNED);
    ctx.line_width = 14;
    assert_eq!(aligned_column_layouts(&e.elts, &ctx), None);
    ctx.line_width = 15;
    assert!(aligned_column_layouts(&e.elts, &ctx).is_some());
}

#[test]
fn column_layouts_need_two_columns() {
    let s = "x = [\n    [1],\n    [22],\n]\n";
    let mut at = 4;
    let e = list(s, &mut at, &|at| {
        vec![list(s, at, &|at| vec![number(s, "1", at)]), list(s, at, &|at| vec![number(s, "22", at)])]
    });
    assert_eq!(aligned_column_layouts(&e.elts, &context(s)), None);
}

#[test]
fn aligned_cells_fill_their_columns() {
    let e = aligned_list();
    let ctx = context(ALIGNED);
    let layouts = aligned_column_layouts(&e.elts, &ctx).unwrap();
    for row in &e.elts {
        for (column, cell) in row.elts.iter().enumerate() {
            let metrics = formatted_scalar_metrics(cell, &ctx).unwrap();
            let layout = layouts[column];
            assert_eq!(
                layout.leading_padding(metrics) + metrics.width + layout.trailing_padding(metrics),
                layout.width()
            );
        }
    }
}

#[test]
fn aligned_sequence_pieces() {
    let e = aligned_list();
    let ctx = context(ALIGNED);
    let layouts = aligned_column_layouts(&e.elts, &ctx).unwrap();
    let mut pieces = Vec::new();
    format_aligned_sequence(SequenceKind::List, &e.elts, &layouts, &ctx, &mut pieces);
    let expected = vec![
        "[", "indent", "newline", "[", "pad 1", "cell 1", "pad 0", ",", "space", "pad 0", "cell 2.5",
        "pad 1", "]", ",", "comments", "newline", "[", "pad 0", "cell 10", "pad 0", ",", "space",
        "pad 0", "cell 3.25", "pad 0", "]", ",", "comments", "dedent", "newline", "]",
    ];
    assert_eq!(describe(ALIGNED, &pieces), expected);
}

#[test]
fn fmt_fields_chooses_the_layout() {
    let e = aligned_list();
    let ctx = context(ALIGNED);
    let format = FormatExprList::default();
    match format.fmt_fields(&e, &ctx) {
        ListFormat::Aligned(pieces) => assert_eq!(pieces.len(), 31),
        _ => panic!("expected an aligned list"),
    }
    let mut off = context(ALIGNED);
    off.tali_mode = false;
    assert!(matches!(format.fmt_fields(&e, &off), ListFormat::Parenthesized));
    let mut dangling = aligned_list();
    dangling.dangling_comments.push(SourceComment {
        range: TextRange { start: 8, end: 8 },
        line_position: LinePosition::OwnLine,
    });
    assert!(matches!(format.fmt_fields(&dangling, &ctx), ListFormat::Parenthesized));
    let s = "[]";
    let mut at = 0;
    let empty = list(s, &mut at, &|_| vec![]);
    assert!(matches!(format.fmt_fields(&empty, &context(s)), ListFormat::EmptyParenthesized));
}

#[test]
fn fmt_fields_keeps_one_line_lists_standard() {
    let s = "x = [[1,   2], [3,   4]]";
    let mut at = 4;
    let e = list(s, &mut at, &|at| {
        vec![
            list(s, at, &|at| vec![number(s, "1", at), number(s, "2", at)]),
            list(s, at, &|at| vec![number(s, "3", at), number(s, "4", at)]),
        ]
    });
    assert!(matches!(FormatExprList::default().fmt_fields(&e, &context(s)), ListFormat::Parenthesized));
}

#[test]
fn comment_spacing_shows_row_intent() {
    let s = "x = [\n    [1, 2],      # first\n    [3, 4],\n]\n";
    let mut at = 4;
    let mut e = list(s, &mut at, &|at| {
        vec![
            list(s, at, &|at| vec![number(s, "1", at), number(s, "2", at)]),
            list(s, at, &|at| vec![number(s, "3", at), number(s, "4", at)]),
        ]
    });
    let comment = s.find('#').unwrap() as u32;
    e.elts[0].trailing_comments.push(SourceComment {
        range: TextRange { start: comment, end: comment + 7 },
        line_position: LinePosition::EndOfLine,
    });
    assert_eq!(
        aligned_column_layouts(&e.elts, &context(s)),
        Some(vec![
            ColumnLayout::Decimal { left_width: 1, right_width: 0 },
            ColumnLayout::Decimal { left_width: 1, right_width: 0 },
        ])
    );
}

#[test]
fn aligned_rows_have_equal_width() {
    let e = aligned_list();
    let ctx = context(ALIGNED);
    let layouts = aligned_column_layouts(&e.elts, &ctx).unwrap();
    let mut widths = Vec::new();
    for row in &e.elts {
        let mut pieces = Vec::new();
        format_aligned_sequence(SequenceKind::List, &row.elts, &layouts, &ctx, &mut pieces);
        let width: u32 = pieces
            .iter()
            .map(|piece| match piece {
                FormatPiece::Padding(n) => *n,
                FormatPiece::Cell(cell) => formatted_scalar_metrics(cell, &ctx).unwrap().width,
                FormatPiece::Open(_) | FormatPiece::Close(_) | FormatPiece::Comma | FormatPiece::Space => 1,
                _ => 0,
            })
            .sum();
        widths.push(width);
    }
    assert_eq!(widths, vec![10, 10]);
}

#[test]
fn multiline_cells_are_not_aligned() {
    let s = "x = [\n    [f(\n),   1],\n    [g,     2],\n]\n";
    let mut at = 4;
    let e = list(s, &mut at, &|at| {
        vec![
            list(s, at, &|at| {
                let mut call = name(s, "f(\n)", at);
                call.printed = Some(chars("f()"));
                vec![call, number(s, "1", at)]
            }),
            list(s, at, &|at| vec![name(s, "g", at), number(s, "2", at)]),
        ]
    });
    assert_eq!(aligned_column_layouts(&e.elts, &context(s)), None);
}

#[test]
fn deep_multiline_cells_are_not_aligned() {
    let build = |s: &str, call: &str| {
        let mut at = 4;
        list(s, &mut at, &|at| {
            vec![
                list(s, at, &|at| {
                    vec![
                        list(s, at, &|at| {
                            let mut f = name(s, call, at);
                            f.printed = Some(chars("f()"));
                            vec![f, number(s, "2", at)]
                        }),
                        list(s, at, &|at| vec![number(s, "3", at), number(s, "44", at)]),
                    ]
                }),
                list(s, at, &|at| {
                    vec![
                        list(s, at, &|at| vec![number(s, "5", at), number(s, "6", at)]),
                        list(s, at, &|at| vec![number(s, "77", at), number(s, "8", at)]),
                    ]
                }),
            ]
        })
    };
    let one_line = "c = [\n    [\n        [f(),  2],\n        [3,    44],\n    ],\n    [\n        [5,    6],\n        [77,   8],\n    ],\n]\n";
    let e = build(one_line, "f()");
    assert!(aligned_column_layouts(&e.elts, &context(one_line)).is_some());
    let split = "c = [\n    [\n        [f(\n),  2],\n        [3,    44],\n    ],\n    [\n        [5,    6],\n        [77,   8],\n    ],\n]\n";
    let e = build(split, "f(\n)");
    assert_eq!(aligned_column_layouts(&e.elts, &context(split)), None);
}

#[test]
fn tuples_of_tuples_align() {
    let s = "t = (\n    (a,  bb),\n    (ccc, d),\n)\n";
    let tuple = |from: &mut usize, build: &dyn Fn(&mut usize) -> Vec<Expr>| {
        let mut e = list(&s.replace('(', "[").replace(')', "]"), from, build);
        e.kind = ExprKind::Tuple;
        e
    };
    let mut at = 4;
    let e = tuple(&mut at, &|at| {
        vec![
            tuple(at, &|at| vec![name(s, "a", at), name(s, "bb", at)]),
            tuple(at, &|at| vec![name(s, "ccc", at), name(s, "d", at)]),
        ]
    });
    let layouts = aligned_column_layouts(&e.elts, &context(s)).unwrap();
    assert_eq!(layouts, vec![ColumnLayout::Left { width: 3 }, ColumnLayout::Left { width: 2 }]);
    let mut pieces = Vec::new();
    format_aligned_sequence(SequenceKind::Tuple, &e.elts, &layouts, &context(s), &mut pieces);
    let described = describe(s, &pieces);
    assert_eq!(described[0], "(");
    assert_eq!(&described[3..13], &["(", "pad 0", "cell a", "pad 2", ",", "space", "pad 0", "cell bb", "pad 0", ")"]);
}

#[test]
fn three_dimensional_literals_align() {
    let s = "c = [\n    [\n        [1,  2],\n        [3,  44],\n    ],\n    [\n        [5,  6],\n        [77, 8],\n    ],\n]\n";
    let mut at = 4;
    let e = list(s, &mut at, &|at| {
        vec![
            list(s, at, &|at| {
                vec![
                    list(s, at, &|at| vec![number(s, "1", at), number(s, "2", at)]),
                    list(s, at, &|at| vec![number(s, "3", at), number(s, "44", at)]),
                ]
            }),
            list(s, at, &|at| {
                vec![
                    list(s, at, &|at| vec![number(s, "5", at), number(s, "6", at)]),
                    list(s, at, &|at| vec![number(s, "77", at), number(s, "8", at)]),
                ]
            }),
        ]
    });
    assert_eq!(nested_sequence_shape(&e), Some(vec![2, 2, 2]));
    let ctx = context(s);
    let mut rows: Vec<LeafRow> = Vec::new();
    assert_eq!(collect_leaf_rows(&e, 0, &ctx, &mut rows), Some(()));
    assert_eq!(rows.len(), 4);
    assert_eq!(rows[3].depth, 2);
    let layouts = aligned_column_layouts(&e.elts, &ctx).unwrap();
    assert_eq!(
        layouts,
        vec![
            ColumnLayout::Decimal { left_width: 2, right_width: 0 },
            ColumnLayout::Decimal { left_width: 2, right_width: 0 },
        ]
    );
    match FormatExprList::default().fmt_fields(&e, &ctx) {
        ListFormat::Aligned(pieces) => {
            let described = describe(s, &pieces);
            let indents = described.iter().filter(|d| *d == "indent").count();
            assert_eq!(indents, 3);
            assert!(described.contains(&"cell 77".to_string()));
        },
        _ => panic!("expected an aligned list"),
    }
}

#[test]
fn lists_never_need_parentheses() {
    let e = aligned_list();
    assert_eq!(needs_parentheses(&e, &context(ALIGNED)), OptionalParentheses::Never);
}
