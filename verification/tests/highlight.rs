use gpui_highlight_input::{validate_spans, HighlightSpan, HighlightSpanError};

#[test]
fn spans_are_sorted_and_adjacency_is_allowed() {
    let spans = validate_spans(
        "aé{{host}}{{port}}",
        vec![
            HighlightSpan {
                range: 11..19,
                payload: "port",
            },
            HighlightSpan {
                range: 3..11,
                payload: "host",
            },
        ],
    )
    .unwrap();

    assert_eq!(
        spans
            .iter()
            .map(|span| span.range.clone())
            .collect::<Vec<_>>(),
        [3..11, 11..19]
    );
}

#[test]
fn invalid_ranges_report_the_exact_reason() {
    assert!(matches!(
        validate_spans(
            "abc",
            vec![HighlightSpan {
                range: 1..1,
                payload: ()
            }]
        ),
        Err(HighlightSpanError::EmptyRange { range }) if range == (1..1)
    ));
    assert!(matches!(
        validate_spans(
            "abc",
            vec![HighlightSpan {
                range: 0..4,
                payload: ()
            }]
        ),
        Err(HighlightSpanError::OutOfBounds { range, text_len: 3 }) if range == (0..4)
    ));
    assert!(matches!(
        validate_spans(
            "é",
            vec![HighlightSpan {
                range: 1..2,
                payload: ()
            }]
        ),
        Err(HighlightSpanError::InvalidCharBoundary { offset: 1 })
    ));
    assert!(matches!(
        validate_spans(
            "abcd",
            vec![
                HighlightSpan {
                    range: 0..3,
                    payload: ()
                },
                HighlightSpan {
                    range: 2..4,
                    payload: ()
                },
            ]
        ),
        Err(HighlightSpanError::Overlap { previous, current })
            if previous == (0..3) && current == (2..4)
    ));
}

#[test]
fn sorting_orders_by_start_then_end_and_keeps_payloads() {
    let spans = validate_spans(
        "0123456789",
        vec![
            HighlightSpan { range: 8..10, payload: 'c' },
            HighlightSpan { range: 0..2, payload: 'a' },
            HighlightSpan { range: 4..6, payload: 'b' },
        ],
    )
    .unwrap();
    let got: Vec<_> = spans.iter().map(|s| (s.range.clone(), s.payload)).collect();
    assert_eq!(got, vec![(0..2, 'a'), (4..6, 'b'), (8..10, 'c')]);
}

#[test]
fn equal_starts_are_ordered_by_end_before_the_overlap_is_reported() {
    // sorted: 2..3, then 2..5: the second overlaps the first
    let err = validate_spans(
        "abcdef",
        vec![
            HighlightSpan { range: 2..5, payload: 1 },
            HighlightSpan { range: 2..3, payload: 2 },
        ],
    )
    .unwrap_err();
    assert_eq!(
        err,
        HighlightSpanError::Overlap {
            previous: 2..3,
            current: 2..5
        }
    );
}

#[test]
fn the_first_problem_in_range_order_is_reported() {
    // 0..9 is out of bounds, 1..1 is empty; 0..9 comes first in range order
    let err = validate_spans(
        "abc",
        vec![
            HighlightSpan { range: 1..1, payload: () },
            HighlightSpan { range: 0..9, payload: () },
        ],
    )
    .unwrap_err();
    assert_eq!(
        err,
        HighlightSpanError::OutOfBounds {
            range: 0..9,
            text_len: 3
        }
    );
}

#[test]
fn start_boundary_is_checked_before_end_boundary() {
    // "é" is two bytes; both ends of 1..3 in "éé" fall inside characters
    let err = validate_spans("éé", vec![HighlightSpan { range: 1..3, payload: () }]).unwrap_err();
    assert_eq!(err, HighlightSpanError::InvalidCharBoundary { offset: 1 });
    let err = validate_spans("éé", vec![HighlightSpan { range: 0..3, payload: () }]).unwrap_err();
    assert_eq!(err, HighlightSpanError::InvalidCharBoundary { offset: 3 });
}

#[test]
fn reversed_range_is_empty() {
    #[allow(clippy::reversed_empty_ranges)]
    let range = 3..1;
    let err = validate_spans("abcd", vec![HighlightSpan { range, payload: () }]).unwrap_err();
    assert_eq!(err, HighlightSpanError::EmptyRange { range: 3..1 });
}

#[test]
fn a_span_may_end_at_the_end_of_the_text() {
    let spans = validate_spans("aé", vec![HighlightSpan { range: 1..3, payload: () }]).unwrap();
    assert_eq!(spans.len(), 1);
    assert_eq!(spans[0].range, 1..3);
}

#[test]
fn no_spans_validate_to_no_spans() {
    let spans = validate_spans::<()>("", Vec::new()).unwrap();
    assert!(spans.is_empty());
}

#[test]
fn validation_of_a_validated_list_returns_it_unchanged() {
    let text = "one two three";
    let first = validate_spans(
        text,
        vec![
            HighlightSpan { range: 8..13, payload: "three" },
            HighlightSpan { range: 0..3, payload: "one" },
            HighlightSpan { range: 4..7, payload: "two" },
        ],
    )
    .unwrap();
    let again = validate_spans(text, first.clone()).unwrap();
    assert_eq!(again, first);
}

#[test]
fn accepted_spans_are_a_sorted_disjoint_permutation_of_the_input() {
    let text = "αβγδεζηθ"; // 16 bytes, every character two bytes
    let input = vec![
        HighlightSpan { range: 12..16, payload: 3 },
        HighlightSpan { range: 2..4, payload: 1 },
        HighlightSpan { range: 4..8, payload: 2 },
        HighlightSpan { range: 0..2, payload: 0 },
    ];
    let out = validate_spans(text, input.clone()).unwrap();
    let mut payloads: Vec<_> = out.iter().map(|s| s.payload).collect();
    assert_eq!(payloads, vec![0, 1, 2, 3]);
    for pair in out.windows(2) {
        assert!(pair[0].range.end <= pair[1].range.start);
    }
    for s in &out {
        assert!(s.range.start < s.range.end && s.range.end <= text.len());
        assert!(text.is_char_boundary(s.range.start) && text.is_char_boundary(s.range.end));
    }
    payloads.sort();
    let mut expected: Vec<_> = input.iter().map(|s| s.payload).collect();
    expected.sort();
    assert_eq!(payloads, expected);
}

#[test]
fn span_and_error_clones_are_equal() {
    let span = HighlightSpan { range: 1..4, payload: String::from("p") };
    assert_eq!(span.clone(), span);
    let errors = [
        HighlightSpanError::EmptyRange { range: 2..2 },
        HighlightSpanError::OutOfBounds { range: 0..9, text_len: 3 },
        HighlightSpanError::InvalidCharBoundary { offset: 5 },
        HighlightSpanError::Overlap { previous: 0..3, current: 2..4 },
    ];
    for e in &errors {
        assert_eq!(&e.clone(), e);
    }
}
