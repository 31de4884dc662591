use gpui_highlight_input::validate_spans;
use gpui_highlight_input::variables::{highlight_spans, spans};

fn names(text: &str) -> Vec<String> {
    spans(text).into_iter().map(|span| span.name).collect()
}

#[test]
fn parser_contract() {
    assert_eq!(names("{{base}}/{{version}}"), ["base", "version"]);
    assert!(spans("{{}}").is_empty());
    assert!(spans("{{   }}").is_empty());
    assert!(spans("{{base").is_empty());
    assert_eq!(names("{{a{{b}}"), ["b"]);
    assert_eq!(names("{{a}}{{b}}"), ["a", "b"]);
    let text = "https://é.example/{{ id }}";
    let found = spans(text);
    assert_eq!(&text[found[0].range.clone()], "{{ id }}");
    assert_eq!(found[0].name, "id");
}

#[test]
fn ranges_are_byte_offsets_of_the_whole_variable() {
    let text = "https://{{host}}/{{version}}/health";
    let found = spans(text);
    let ranges: Vec<_> = found.iter().map(|s| s.range.clone()).collect();
    assert_eq!(ranges, vec![8..16, 17..28]);
    assert_eq!(&text[8..16], "{{host}}");
    assert_eq!(&text[17..28], "{{version}}");
}

#[test]
fn unicode_white_space_is_trimmed_and_inner_space_kept() {
    let found = spans("x{{\u{3000}first name\u{a0}\t}}y");
    assert_eq!(found.len(), 1);
    assert_eq!(found[0].name, "first name");
    assert_eq!(found[0].range, 1..(1 + "{{\u{3000}first name\u{a0}\t}}".len()));
}

#[test]
fn the_innermost_opener_before_a_closer_wins() {
    let text = "{{{x}}";
    let found = spans(text);
    assert_eq!(found.len(), 1);
    assert_eq!(found[0].name, "x");
    assert_eq!(found[0].range, 1..6);
}

#[test]
fn an_unclosed_opener_ends_the_scan() {
    assert_eq!(names("{{a}} {{b {{c"), ["a"]);
    assert_eq!(names("{{a}} {{b }} c}}"), ["a", "b"]);
}

#[test]
fn scanning_resumes_after_the_closer() {
    // the closer's braces are not reused as an opener
    assert_eq!(names("{{a}}}}{{b}}"), ["a", "b"]);
    assert_eq!(names("{{ }}{{b}}"), ["b"]);
}

#[test]
fn highlight_spans_carry_the_names() {
    let text = "é{{ a }}:{{b}}";
    let hs = highlight_spans(text);
    let got: Vec<_> = hs.iter().map(|s| (s.range.clone(), s.payload.clone())).collect();
    assert_eq!(got, vec![(2..9, "a".to_string()), (10..15, "b".to_string())]);
}

#[test]
fn found_variables_always_pass_validation() {
    for text in [
        "https://{{host}}/{{version}}/health",
        "aé{{host}}{{port}}",
        "{{a{{b}}",
        "{{{{x}}}}{{y}}",
        "日本{{ 名前 }}語{{x}}",
        "{{}}{{ }}{{z}}",
        "",
        "no variables",
    ] {
        let hs = highlight_spans(text);
        let n = hs.len();
        let validated = validate_spans(text, hs.clone()).expect("found variables validate");
        assert_eq!(validated.len(), n);
        assert_eq!(validated, hs);
    }
}

#[test]
fn span_clone_is_equal() {
    let found = spans("{{a}}");
    assert_eq!(found[0].clone(), found[0]);
}

#[test]
fn brace_free_text_around_only_moves_the_ranges() {
    for text in ["{{a}} {{b}}", "{{a{{b}}", "x{{ }}y{{z}}", "{{ 名前 }}"] {
        let inner = spans(text);
        for (p, q) in [("é/", ":8080"), ("", "…"), ("https://", "")] {
            let outer = spans(&format!("{p}{text}{q}"));
            assert_eq!(outer.len(), inner.len());
            for (o, i) in outer.iter().zip(inner.iter()) {
                assert_eq!(o.range, i.range.start + p.len()..i.range.end + p.len());
                assert_eq!(o.name, i.name);
            }
        }
    }
}

#[test]
fn every_brace_free_variable_is_found() {
    let text = "}{ {{a}} {b} {{ c d }}} {{e}";
    let found = names(text);
    assert_eq!(found, ["a", "c d"]);
}

#[test]
fn what_is_found_has_no_pair_of_braces_inside() {
    let text = "{{x {{y}} }} {{{z}}}";
    for s in spans(text) {
        let inner = &text[s.range.start + 2..s.range.end - 2];
        assert!(!inner.contains("{{") && !inner.contains("}}"));
        assert!(text[s.range.clone()].starts_with("{{") && text[s.range.clone()].ends_with("}}"));
        assert_eq!(inner.trim(), s.name);
    }
    assert_eq!(names(text), ["y", "z"]);
}
