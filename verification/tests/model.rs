//! Pointer scenarios of a highlighted input, played on its model: the
//! pointer is given by the text offset under it and, for each candidate
//! span, by whether the span's drawn bounds hold it.
use gpui_highlight_input::{
    HighlightInputEvent, HighlightModel, HighlightSpan, HighlightSpanError,
};

type Bounds = (i32, i32, i32, i32);
type Model = HighlightModel<&'static str, Bounds>;

fn span(range: std::ops::Range<usize>, payload: &'static str) -> HighlightSpan<&'static str> {
    HighlightSpan { range, payload }
}

/// Hovers the pointer over text offset `offset`, `hits` telling for each
/// candidate whether its drawn bounds hold the pointer.
fn hover(m: &mut Model, offset: usize, hits: (Option<Bounds>, Option<Bounds>)) -> Option<HighlightInputEvent<&'static str, Bounds>> {
    let target = m.candidate_at(offset, hits);
    m.update_hover(target)
}

fn hovered_payload(ev: &Option<HighlightInputEvent<&'static str, Bounds>>) -> Option<Option<&'static str>> {
    match ev {
        Some(HighlightInputEvent::HoverChanged(hit)) => Some(hit.as_ref().map(|h| h.payload)),
        _ => None,
    }
}

#[test]
fn invalid_replacement_clears_decorations_and_hover_once() {
    let text = "aé{{host}}{{port}}";
    let mut m = Model::new();
    let (result, ev) = m.set_spans(text, vec![span(3..11, "host")]);
    assert_eq!(result, Ok(()));
    assert!(ev.is_none());
    let ev = hover(&mut m, 5, (Some((0, 0, 10, 10)), None));
    assert_eq!(hovered_payload(&ev), Some(Some("host")));

    let (result, ev) = m.set_spans(text, vec![span(3..20, "host")]);
    assert!(matches!(result, Err(HighlightSpanError::OutOfBounds { .. })));
    assert_eq!(ev, Some(HighlightInputEvent::HoverChanged(None)));
    assert!(m.spans().is_empty());
    assert!(m.decoration_ranges().is_empty());
    assert!(m.hovered().is_none());
    assert!(m.clear_hover().is_none());
}

#[test]
fn rendered_pointer_events_are_deduplicated_cleared_and_clicked() {
    let text = "aa{{host}}:{{port}}zz";
    let mut m = Model::new();
    let (result, _) = m.set_spans(text, vec![span(11..19, "port"), span(2..10, "host")]);
    assert_eq!(result, Ok(()));
    let first = (20, 0, 80, 20);
    let second = (110, 0, 80, 20);

    let mut hover_events = 0;
    for ev in [hover(&mut m, 5, (Some(first), None)), hover(&mut m, 6, (Some(first), None))] {
        if matches!(ev, Some(HighlightInputEvent::HoverChanged(Some(_)))) {
            hover_events += 1;
        }
    }
    assert_eq!(hover_events, 1, "movement inside one span is deduplicated");

    let ev = hover(&mut m, 0, (None, None));
    assert_eq!(ev, Some(HighlightInputEvent::HoverChanged(None)));

    let target = m.candidate_at(15, (Some(second), None));
    let ev = m.click(target);
    assert!(matches!(ev, Some(HighlightInputEvent::Clicked(hit)) if hit.payload == "port" && hit.range == (11..19)));
}

#[test]
fn input_padding_does_not_hit_the_nearest_text_range() {
    let mut m = Model::new();
    let (result, _) = m.set_spans(" {{host}} ", vec![span(1..9, "host")]);
    assert_eq!(result, Ok(()));
    assert_eq!(m.candidates(0), (None, None));
    assert_eq!(m.candidates(9), (Some(0), None));
    assert!(hover(&mut m, 0, (None, None)).is_none());
    assert!(hover(&mut m, 9, (None, None)).is_none());
    assert!(m.hovered().is_none());
}

#[test]
fn adjacent_ranges_check_the_previous_candidate_at_the_shared_boundary() {
    let mut m = Model::new();
    let (result, _) = m.set_spans("abcd", vec![span(0..2, "left"), span(2..4, "right")]);
    assert_eq!(result, Ok(()));
    assert_eq!(m.candidates(2), (Some(1), Some(0)));
    let ev = hover(&mut m, 2, (None, Some((0, 0, 16, 20))));
    assert_eq!(hovered_payload(&ev), Some(Some("left")));
}

#[test]
fn candidates_are_the_last_span_starting_at_or_before_the_offset_and_the_one_before() {
    let mut m = Model::new();
    let text = "0123456789abcdef";
    let (result, _) = m.set_spans(text, vec![span(8..10, "c"), span(1..3, "a"), span(4..6, "b")]);
    assert_eq!(result, Ok(()));
    assert_eq!(m.candidates(0), (None, None));
    assert_eq!(m.candidates(1), (Some(0), None));
    assert_eq!(m.candidates(3), (Some(0), None));
    assert_eq!(m.candidates(4), (Some(1), Some(0)));
    assert_eq!(m.candidates(7), (Some(1), Some(0)));
    assert_eq!(m.candidates(8), (Some(2), Some(1)));
    assert_eq!(m.candidates(15), (Some(2), Some(1)));
    assert_eq!(m.decoration_ranges(), vec![1..3, 4..6, 8..10]);
}

#[test]
fn first_candidate_with_bounds_wins() {
    let mut m = Model::new();
    let (result, _) = m.set_spans("abcd", vec![span(0..2, "left"), span(2..4, "right")]);
    assert_eq!(result, Ok(()));
    let t = m.candidate_at(3, (Some((1, 1, 1, 1)), Some((2, 2, 2, 2)))).unwrap();
    assert_eq!((t.index, t.range.clone(), t.bounds), (1, 2..4, (1, 1, 1, 1)));
    assert!(m.candidate_at(3, (None, None)).is_none());
    // a hit for a candidate that does not exist is not looked at
    assert!(m.candidate_at(0, (None, Some((2, 2, 2, 2)))).is_none());
    assert!(m.candidate_at(1, (None, Some((2, 2, 2, 2)))).is_none());
    let t = m.candidate_at(1, (Some((3, 3, 3, 3)), Some((2, 2, 2, 2)))).unwrap();
    assert_eq!(t.index, 0);
}

#[test]
fn replacement_keeps_the_hover_only_over_an_unchanged_span() {
    let text = "{{a}} {{b}}";
    let mut m = Model::new();
    let _ = m.set_spans(text, vec![span(0..5, "a"), span(6..11, "b")]);
    let ev = hover(&mut m, 7, (Some((5, 5, 5, 5)), None));
    assert_eq!(hovered_payload(&ev), Some(Some("b")));

    // same spans again: the hover stays, no event
    let (result, ev) = m.set_spans(text, vec![span(6..11, "b"), span(0..5, "a")]);
    assert_eq!(result, Ok(()));
    assert!(ev.is_none());
    assert_eq!(m.hovered().as_ref().map(|t| t.index), Some(1));

    // the hovered span's payload changes: the hover goes
    let (result, ev) = m.set_spans(text, vec![span(0..5, "a"), span(6..11, "B")]);
    assert_eq!(result, Ok(()));
    assert_eq!(ev, Some(HighlightInputEvent::HoverChanged(None)));
    assert!(m.hovered().is_none());

    // nothing hovered: no event either way
    let (_, ev) = m.set_spans(text, vec![span(0..5, "a")]);
    assert!(ev.is_none());
}

#[test]
fn replacement_drops_the_hover_when_its_index_moves() {
    let text = "{{a}} {{b}}";
    let mut m = Model::new();
    let _ = m.set_spans(text, vec![span(0..5, "a"), span(6..11, "b")]);
    let _ = hover(&mut m, 7, (Some((5, 5, 5, 5)), None));
    let (result, ev) = m.set_spans(text, vec![span(6..11, "b")]);
    assert_eq!(result, Ok(()));
    assert_eq!(ev, Some(HighlightInputEvent::HoverChanged(None)));
    assert!(m.hovered().is_none());
}

#[test]
fn new_bounds_for_the_hovered_span_are_reported() {
    let mut m = Model::new();
    let _ = m.set_spans("{{a}}", vec![span(0..5, "a")]);
    assert!(hover(&mut m, 1, (Some((0, 0, 5, 5)), None)).is_some());
    assert!(hover(&mut m, 2, (Some((0, 0, 5, 5)), None)).is_none());
    let ev = hover(&mut m, 2, (Some((9, 0, 5, 5)), None));
    assert!(matches!(ev, Some(HighlightInputEvent::HoverChanged(Some(hit))) if hit.bounds == (9, 0, 5, 5)));
}

#[test]
fn clearing_the_hover_reports_once() {
    let mut m = Model::new();
    let _ = m.set_spans("{{a}}", vec![span(0..5, "a")]);
    assert!(m.clear_hover().is_none());
    let _ = hover(&mut m, 1, (Some((0, 0, 5, 5)), None));
    assert_eq!(m.clear_hover(), Some(HighlightInputEvent::HoverChanged(None)));
    assert!(m.clear_hover().is_none());
}

#[test]
fn clicking_outside_every_span_reports_nothing() {
    let mut m = Model::new();
    let _ = m.set_spans("{{a}}", vec![span(0..5, "a")]);
    let target = m.candidate_at(2, (None, None));
    assert!(m.click(target).is_none());
}

#[test]
fn events_clone_equal() {
    let mut m = Model::new();
    let _ = m.set_spans("{{a}}", vec![span(0..5, "a")]);
    let ev = hover(&mut m, 1, (Some((0, 0, 5, 5)), None)).unwrap();
    assert_eq!(ev.clone(), ev);
    let target = m.candidate_at(1, (Some((0, 0, 5, 5)), None)).unwrap();
    let hit = m.hit_for_target(&target);
    assert_eq!(hit.clone(), hit);
    assert_eq!(hit.payload, "a");
}

#[test]
fn a_visible_range_at_the_end_of_a_scrolled_value_emits_its_payload() {
    let value = format!("{}END", "long-prefix/".repeat(160));
    let end = value.len();
    let mut m = Model::new();
    let (result, _) = m.set_spans(&value, vec![span(end - 3..end, "end")]);
    assert_eq!(result, Ok(()));
    let ev = hover(&mut m, end - 2, (Some((500, 0, 30, 20)), None));
    assert_eq!(hovered_payload(&ev), Some(Some("end")));
}
