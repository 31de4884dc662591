//! The state behind a highlighted input, apart from the widget toolkit: the
//! validated spans, the span under the pointer, and the events that spans
//! replacement, pointer movement and clicks give rise to.
//!
//! `B` is how the toolkit describes where a span is drawn; the model only
//! stores it and compares it for equality.
use std::ops::Range;
use vstd::laws_eq::obeys_concrete_eq;
use vstd::prelude::*;
use vstd::std_specs::cmp::PartialEqSpec;
use crate::highlight::{
    disjoint_in_order, lemma_validated_ok, validate_spans, validated, HighlightSpan,
    HighlightSpanError,
};

verus! {

/// A span under the pointer: its index among the spans, its range, and the
/// bounds in which the pointer was found.
#[derive(Debug)]
pub struct HoverTarget<B> {
    pub index: usize,
    pub range: Range<usize>,
    pub bounds: B,
}

/// What hover and click events report: the span's payload and range, and
/// where the span is drawn.
#[derive(Debug, PartialEq)]
pub struct HighlightHit<P, B> {
    pub payload: P,
    pub range: Range<usize>,
    pub bounds: B,
}

impl<P: Clone, B: Clone> Clone for HighlightHit<P, B> {
    fn clone(&self) -> (res: Self)
        ensures
            cloned(self.payload, res.payload),
            res.range == self.range,
            cloned(self.bounds, res.bounds),
    {
        HighlightHit {
            payload: self.payload.clone(),
            range: self.range.start..self.range.end,
            bounds: self.bounds.clone(),
        }
    }
}

/// Events of a highlighted input.
#[derive(Debug, PartialEq)]
pub enum HighlightInputEvent<P, B> {
    /// The pointer moved onto another span, or off every span (`None`).
    HoverChanged(Option<HighlightHit<P, B>>),
    /// A span was clicked.
    Clicked(HighlightHit<P, B>),
}

impl<P: Clone, B: Clone> Clone for HighlightInputEvent<P, B> {
    fn clone(&self) -> (res: Self)
        ensures
            self matches HighlightInputEvent::HoverChanged(None) ==> res matches HighlightInputEvent::HoverChanged(None),
            self matches HighlightInputEvent::HoverChanged(Some(h)) ==> res matches HighlightInputEvent::HoverChanged(Some(r))
                && r.range == h.range && cloned(h.payload, r.payload) && cloned(h.bounds, r.bounds),
            self matches HighlightInputEvent::Clicked(h) ==> res matches HighlightInputEvent::Clicked(r) && r.range == h.range
                && cloned(h.payload, r.payload) && cloned(h.bounds, r.bounds),
    {
        match self {
            HighlightInputEvent::HoverChanged(None) => HighlightInputEvent::HoverChanged(None),
            HighlightInputEvent::HoverChanged(Some(h)) => HighlightInputEvent::HoverChanged(
                Some(h.clone()),
            ),
            HighlightInputEvent::Clicked(h) => HighlightInputEvent::Clicked(h.clone()),
        }
    }
}

/// The model's invariant: the spans are non-empty and in order without
/// overlap, and a hovered span is one of them, with its current range.
pub open spec fn model_wf<P, B>(spans: Seq<HighlightSpan<P>>, hovered: Option<HoverTarget<B>>) -> bool {
    &&& disjoint_in_order(spans)
    &&& valid_target(spans, hovered)
}

/// `target`, if any, names one of `spans` by index, with that span's range.
pub open spec fn valid_target<P, B>(spans: Seq<HighlightSpan<P>>, target: Option<HoverTarget<B>>) -> bool {
    target matches Some(t) ==> t.index < spans.len() && t.range == spans[t.index as int].range
}

/// `hit` is what is reported for `target` among `spans`: the span's range
/// and a clone of its payload, with the target's bounds.
pub open spec fn reports<P: Clone, B>(
    spans: Seq<HighlightSpan<P>>,
    target: HoverTarget<B>,
    hit: HighlightHit<P, B>,
) -> bool {
    &&& hit.range == spans[target.index as int].range
    &&& hit.bounds == target.bounds
    &&& cloned(spans[target.index as int].payload, hit.payload)
}

/// The event that dropping the hover `hovered` reports.
pub open spec fn hover_cleared_event<P, B>(hovered: Option<HoverTarget<B>>) -> Option<
    HighlightInputEvent<P, B>,
> {
    if hovered is Some {
        Some(HighlightInputEvent::HoverChanged(None))
    } else {
        None
    }
}

/// The two targets are the same: both absent, or both present with equal
/// index, range and bounds.
pub open spec fn same_target<B: PartialEq>(a: Option<HoverTarget<B>>, b: Option<HoverTarget<B>>) -> bool {
    match (a, b) {
        (None, None) => true,
        (Some(x), Some(y)) => x.index == y.index && x.range == y.range && x.bounds.eq_spec(&y.bounds),
        _ => false,
    }
}

/// The two targets agree in all but their bounds.
pub open spec fn same_place<B>(a: Option<HoverTarget<B>>, b: Option<HoverTarget<B>>) -> bool {
    match (a, b) {
        (None, None) => true,
        (Some(x), Some(y)) => x.index == y.index && x.range == y.range,
        _ => false,
    }
}

/// A replacement of `old` by `new` keeps the hover `hovered`: the hovered
/// index names a span in both, with the same range in both and the hovered
/// range, and (by `P`'s equality) the same payload.
pub open spec fn keeps_hover<P: PartialEq, B>(
    old: Seq<HighlightSpan<P>>,
    new: Seq<HighlightSpan<P>>,
    hovered: Option<HoverTarget<B>>,
) -> bool {
    hovered matches Some(t) && same_span_at(old, new, t)
        && old[t.index as int].payload.eq_spec(&new[t.index as int].payload)
}

/// The hovered index names a span in `old` and in `new`, with the hovered
/// range in both.
pub open spec fn same_span_at<P, B>(
    old: Seq<HighlightSpan<P>>,
    new: Seq<HighlightSpan<P>>,
    t: HoverTarget<B>,
) -> bool {
    &&& t.index < old.len()
    &&& t.index < new.len()
    &&& old[t.index as int].range == new[t.index as int].range
    &&& new[t.index as int].range == t.range
}

/// How many spans start at or before `offset`.
pub open spec fn count_starting_by<P>(s: Seq<HighlightSpan<P>>, offset: usize) -> nat
    decreases s.len(),
{
    if s.len() == 0 {
        0
    } else {
        count_starting_by(s.drop_last(), offset) + if s.last().range.start <= offset {
            1nat
        } else {
            0nat
        }
    }
}

/// The spans to test for a pointer at text offset `offset`, in order: the
/// last span that starts at or before the offset (`primary`), then the one
/// before it (`previous`, which may end right where the first starts).
pub open spec fn candidate_pair<P>(s: Seq<HighlightSpan<P>>, offset: usize) -> (
    Option<usize>,
    Option<usize>,
) {
    let p = count_starting_by(s, offset);
    (
        if p >= 1 {
            Some((p - 1) as usize)
        } else {
            None
        },
        if p >= 2 {
            Some((p - 2) as usize)
        } else {
            None
        },
    )
}

/// The target among the candidates `c`: the first candidate whose entry in
/// `hits` holds bounds, with those bounds.
pub open spec fn picks<B>(
    c: (Option<usize>, Option<usize>),
    hits: (Option<B>, Option<B>),
    t: Option<HoverTarget<B>>,
) -> bool {
    match (c.0, hits.0) {
        (Some(i), Some(b)) => t matches Some(x) && x.index == i && x.bounds == b,
        _ => match (c.1, hits.1) {
            (Some(i), Some(b)) => t matches Some(x) && x.index == i && x.bounds == b,
            _ => t is None,
        },
    }
}

/// The spans of a highlighted input and the span under the pointer.
pub struct HighlightModel<P, B> {
    spans: Vec<HighlightSpan<P>>,
    hovered: Option<HoverTarget<B>>,
}

impl<P, B> HighlightModel<P, B> {
    #[verifier::type_invariant]
    spec fn inv(self) -> bool {
        model_wf(self.spans@, self.hovered)
    }

    /// The current spans.
    pub closed spec fn spans_view(&self) -> Seq<HighlightSpan<P>> {
        self.spans@
    }

    /// The span under the pointer, if any.
    pub closed spec fn hovered_view(&self) -> Option<HoverTarget<B>> {
        self.hovered
    }

    /// A model with no spans and nothing hovered.
    pub fn new() -> (m: Self)
        ensures
            m.spans_view() == Seq::<HighlightSpan<P>>::empty(),
            m.hovered_view() is None,
    {
        HighlightModel { spans: Vec::new(), hovered: None }
    }

    /// The current spans, in range order. (Law, the model's invariant:
    /// they are non-empty and in order without overlap, and a hovered span
    /// is one of them, with its current range.)
    pub fn spans(&self) -> (s: &Vec<HighlightSpan<P>>)
        ensures
            s@ == self.spans_view(),
            model_wf(self.spans_view(), self.hovered_view()),
    {
        proof {
            use_type_invariant(self);
        }
        &self.spans
    }

    /// The span under the pointer, if any.
    pub fn hovered(&self) -> (h: &Option<HoverTarget<B>>)
        ensures
            *h == self.hovered_view(),
    {
        &self.hovered
    }

    /// The ranges to decorate: those of the current spans, in order.
    pub fn decoration_ranges(&self) -> (r: Vec<Range<usize>>)
        ensures
            r.len() == self.spans_view().len(),
            forall|i: int| 0 <= i < r.len() ==> #[trigger] r[i] == self.spans_view()[i].range,
    {
        let n = self.spans.len();
        let mut out: Vec<Range<usize>> = Vec::new();
        for i in 0..n
            invariant
                n == self.spans@.len(),
                out.len() == i,
                forall|k: int| 0 <= k < i ==> #[trigger] out[k] == self.spans@[k].range,
        {
            let r = &self.spans[i].range;
            out.push(r.start..r.end);
        }
        out
    }

    /// Drops the hover; reports `HoverChanged(None)` when something was
    /// hovered.
    pub fn clear_hover(&mut self) -> (ev: Option<HighlightInputEvent<P, B>>)
        ensures
            final(self).spans_view() == old(self).spans_view(),
            final(self).hovered_view() is None,
            ev == hover_cleared_event::<P, B>(old(self).hovered_view()),
    {
        proof {
            use_type_invariant(&*self);
        }
        let had = self.hovered.is_some();
        self.hovered = None;
        if had {
            Some(HighlightInputEvent::HoverChanged(None))
        } else {
            None
        }
    }

    /// Replaces the spans by `spans`, validated against `text`.
    ///
    /// When validation fails, the spans are dropped along with the hover,
    /// and the error is returned. Otherwise the validated spans replace the
    /// old ones; the hover stays only when the hovered index names a span of
    /// the same range and payload in both and the hovered range. The event
    /// is the `HoverChanged(None)` of a dropped hover.
    pub fn set_spans(&mut self, text: &str, spans: Vec<HighlightSpan<P>>) -> (r: (
        Result<(), HighlightSpanError>,
        Option<HighlightInputEvent<P, B>>,
    )) where P: PartialEq
        ensures
            validated(text, spans@) matches Err(e) ==> {
                &&& r.0 == Err::<(), HighlightSpanError>(e)
                &&& final(self).spans_view() == Seq::<HighlightSpan<P>>::empty()
                &&& final(self).hovered_view() is None
                &&& r.1 == hover_cleared_event::<P, B>(old(self).hovered_view())
            },
            validated(text, spans@) matches Ok(v) ==> {
                &&& r.0 is Ok
                &&& final(self).spans_view() == v
                &&& final(self).hovered_view() is None || final(self).hovered_view()
                    == old(self).hovered_view()
                &&& final(self).hovered_view() is None ==> r.1 == hover_cleared_event::<P, B>(
                    old(self).hovered_view(),
                )
                &&& final(self).hovered_view() is Some ==> r.1 is None
                &&& final(self).hovered_view() is Some ==> (old(self).hovered_view() matches Some(t)
                    && same_span_at(old(self).spans_view(), v, t))
                &&& P::obeys_eq_spec() ==> (final(self).hovered_view() is Some <==> keeps_hover(
                    old(self).spans_view(),
                    v,
                    old(self).hovered_view(),
                ))
            },
            validated(text, spans@) matches Ok(v) ==> (old(self).hovered_view() matches Some(t)
                ==> ((P::obeys_eq_spec() && t.index < old(self).spans_view().len() && t.index
                < v.len() && old(self).spans_view()[t.index as int].range == v[t.index as int].range
                && v[t.index as int].range == t.range && old(self).spans_view()[t.index as int].payload.eq_spec(
                &v[t.index as int].payload,
            )) ==> (final(self).hovered_view() == old(self).hovered_view() && r.1 is None))),
            validated(text, spans@) matches Ok(v) ==> (old(self).hovered_view() matches Some(t)
                ==> (!(t.index < old(self).spans_view().len() && t.index < v.len()
                && old(self).spans_view()[t.index as int].range == v[t.index as int].range
                && v[t.index as int].range == t.range) ==> (final(self).hovered_view() is None
                && r.1 == Some(HighlightInputEvent::<P, B>::HoverChanged(None))))),
    {
        proof {
            use_type_invariant(&*self);
        }
        match validate_spans(text, spans) {
            Err(error) => {
                let ev = self.clear_hover();
                self.spans = Vec::new();
                (Err(error), ev)
            },
            Ok(new_spans) => {
                proof {
                    lemma_validated_ok(text, spans@);
                }
                let keep = match &self.hovered {
                    Some(t) => {
                        t.index < self.spans.len() && t.index < new_spans.len()
                            && self.spans[t.index].range.start == new_spans[t.index].range.start
                            && self.spans[t.index].range.end == new_spans[t.index].range.end
                            && self.spans[t.index].payload == new_spans[t.index].payload
                            && new_spans[t.index].range.start == t.range.start
                            && new_spans[t.index].range.end == t.range.end
                    },
                    None => false,
                };
                if keep {
                    self.spans = new_spans;
                    (Ok(()), None)
                } else {
                    let ev = self.clear_hover();
                    self.spans = new_spans;
                    (Ok(()), ev)
                }
            },
        }
    }

    /// The spans to test, in order, for a pointer over text offset `offset`:
    /// the last span that starts at or before the offset, then the one
    /// before it. Nothing is allocated.
    pub fn candidates(&self, offset: usize) -> (c: (Option<usize>, Option<usize>))
        ensures
            c == candidate_pair(self.spans_view(), offset),
            c.0 matches Some(i) ==> i < self.spans_view().len(),
            c.1 matches Some(i) ==> i < self.spans_view().len(),
            c.0 matches Some(i) ==> self.spans_view()[i as int].range.start <= offset && (i + 1
                == self.spans_view().len() || self.spans_view()[i + 1].range.start > offset),
            c.0 is None ==> forall|k: int|
                0 <= k < self.spans_view().len() ==> #[trigger] self.spans_view()[k].range.start
                    > offset,
            c.0 matches Some(i) ==> c.1 == if i >= 1 {
                Some((i - 1) as usize)
            } else {
                None
            },
            c.0 is None ==> c.1 is None,
    {
        proof {
            use_type_invariant(self);
        }
        let n = self.spans.len();
        let mut lo: usize = 0;
        let mut hi: usize = n;
        while lo < hi
            invariant
                lo <= hi <= n,
                n == self.spans@.len(),
                disjoint_in_order(self.spans@),
                forall|i: int| 0 <= i < lo ==> (#[trigger] self.spans@[i]).range.start <= offset,
                forall|i: int| hi <= i < n ==> (#[trigger] self.spans@[i]).range.start > offset,
            decreases hi - lo,
        {
            let mid = lo + (hi - lo) / 2;
            if self.spans[mid].range.start <= offset {
                proof {
                    assert forall|i: int| 0 <= i < mid + 1 implies (
                    #[trigger] self.spans@[i]).range.start <= offset by {
                        if i < mid {
                            assert(self.spans@[i].range.end <= self.spans@[mid as int].range.start);
                        }
                    }
                }
                lo = mid + 1;
            } else {
                proof {
                    assert forall|i: int| mid <= i < n implies (
                    #[trigger] self.spans@[i]).range.start > offset by {
                        if i > mid {
                            assert(self.spans@[mid as int].range.end <= self.spans@[i].range.start);
                        }
                    }
                }
                hi = mid;
            }
        }
        proof {
            lemma_count_starting_by(self.spans@, offset, lo as int);
        }
        let primary = if lo >= 1 {
            Some(lo - 1)
        } else {
            None
        };
        let previous = if lo >= 2 {
            Some(lo - 2)
        } else {
            None
        };
        (primary, previous)
    }

    /// Of the candidates for text offset `offset`, the first whose entry in
    /// `hits` holds bounds (the bounds in which the pointer lies), as a
    /// hover target with those bounds. `hits.0` belongs to the first
    /// candidate, `hits.1` to the second. Nothing is allocated.
    pub fn candidate_at(&self, offset: usize, hits: (Option<B>, Option<B>)) -> (t: Option<
        HoverTarget<B>,
    >) where B: Copy
        ensures
            valid_target(self.spans_view(), t),
            picks(candidate_pair(self.spans_view(), offset), hits, t),
    {
        let c = self.candidates(offset);
        if let (Some(index), Some(bounds)) = (c.0, hits.0) {
            let r = &self.spans[index].range;
            return Some(HoverTarget { index, range: r.start..r.end, bounds });
        }
        if let (Some(index), Some(bounds)) = (c.1, hits.1) {
            let r = &self.spans[index].range;
            return Some(HoverTarget { index, range: r.start..r.end, bounds });
        }
        None
    }

    /// What is reported for `target`: the payload and range of its span,
    /// with the target's bounds.
    pub fn hit_for_target(&self, target: &HoverTarget<B>) -> (hit: HighlightHit<P, B>) where
        P: Clone,
        B: Copy,

        requires
            target.index < self.spans_view().len(),
        ensures
            reports(self.spans_view(), *target, hit),
    {
        let span = &self.spans[target.index];
        HighlightHit {
            payload: span.payload.clone(),
            range: span.range.start..span.range.end,
            bounds: target.bounds,
        }
    }

    /// Moves the hover to `candidate`, the span now under the pointer (or
    /// none). Reports `HoverChanged` with the new hit only when the
    /// candidate differs from what is hovered; otherwise nothing changes.
    pub fn update_hover(&mut self, candidate: Option<HoverTarget<B>>) -> (ev: Option<
        HighlightInputEvent<P, B>,
    >) where P: Clone, B: Copy + PartialEq
        requires
            valid_target(old(self).spans_view(), candidate),
        ensures
            final(self).spans_view() == old(self).spans_view(),
            ev is None ==> final(self).hovered_view() == old(self).hovered_view(),
            ev is Some ==> final(self).hovered_view() == candidate,
            ev is Some ==> match (ev->Some_0, candidate) {
                (HighlightInputEvent::HoverChanged(None), None) => true,
                (HighlightInputEvent::HoverChanged(Some(h)), Some(t)) => reports(
                    old(self).spans_view(),
                    t,
                    h,
                ),
                _ => false,
            },
            !same_place(candidate, old(self).hovered_view()) ==> ev is Some,
            B::obeys_eq_spec() ==> (ev is Some <==> !same_target(
                candidate,
                old(self).hovered_view(),
            )),
            B::obeys_eq_spec() ==> final(self).hovered_view() == hover_after(
                old(self).hovered_view(),
                candidate,
            ),
    {
        proof {
            use_type_invariant(&*self);
        }
        let same = match &candidate {
            None => self.hovered.is_none(),
            Some(c) => match &self.hovered {
                None => false,
                Some(h) => {
                    c.index == h.index && c.range.start == h.range.start && c.range.end
                        == h.range.end && c.bounds == h.bounds
                },
            },
        };
        if same {
            return None;
        }
        let hit = match &candidate {
            Some(t) => Some(self.hit_for_target(t)),
            None => None,
        };
        self.hovered = candidate;
        Some(HighlightInputEvent::HoverChanged(hit))
    }

    /// The click event for `candidate`, the span under the pointer, if any.
    pub fn click(&self, candidate: Option<HoverTarget<B>>) -> (ev: Option<HighlightInputEvent<P, B>>) where
        P: Clone,
        B: Copy,

        requires
            valid_target(self.spans_view(), candidate),
        ensures
            candidate is None ==> ev is None,
            candidate matches Some(t) ==> ev matches Some(HighlightInputEvent::Clicked(h)) && reports(
                self.spans_view(),
                t,
                h,
            ),
    {
        match &candidate {
            Some(t) => Some(HighlightInputEvent::Clicked(self.hit_for_target(t))),
            None => None,
        }
    }
}

/// The count of spans starting at or before `offset` is the position where
/// spans starting after it begin.
proof fn lemma_count_starting_by<P>(s: Seq<HighlightSpan<P>>, offset: usize, p: int)
    requires
        0 <= p <= s.len(),
        forall|i: int| 0 <= i < p ==> (#[trigger] s[i]).range.start <= offset,
        forall|i: int| p <= i < s.len() ==> (#[trigger] s[i]).range.start > offset,
    ensures
        count_starting_by(s, offset) == p,
    decreases s.len(),
{
    if s.len() > 0 {
        let d = s.drop_last();
        if p == s.len() {
            assert(s.last().range.start <= offset) by {
                assert(s[s.len() - 1].range.start <= offset);
            }
            assert forall|i: int| 0 <= i < p - 1 implies (#[trigger] d[i]).range.start <= offset by {
                assert(d[i] == s[i]);
            }
            lemma_count_starting_by(d, offset, p - 1);
        } else {
            assert(s.last().range.start > offset) by {
                assert(s[s.len() - 1].range.start > offset);
            }
            assert forall|i: int| 0 <= i < p implies (#[trigger] d[i]).range.start <= offset by {
                assert(d[i] == s[i]);
            }
            assert forall|i: int| p <= i < d.len() implies (#[trigger] d[i]).range.start > offset by {
                assert(d[i] == s[i]);
            }
            lemma_count_starting_by(d, offset, p);
        }
    }
}

/// The hover after moving the pointer to `candidate` from `hovered`: the
/// candidate, unless it is the same target.
pub open spec fn hover_after<B: PartialEq>(
    hovered: Option<HoverTarget<B>>,
    candidate: Option<HoverTarget<B>>,
) -> Option<HoverTarget<B>> {
    if same_target(candidate, hovered) {
        hovered
    } else {
        candidate
    }
}

/// Law: moving the pointer twice to the same target reports at most once.
/// After the first move, whatever it reported, the hover is the same target
/// as the candidate, so the second move (by `update_hover`) reports nothing.
/// This needs only that the candidate's bounds equal themselves by `B`'s
/// equality, which holds whenever that equality is `==`
/// (`lemma_same_target_reflexive`).
pub proof fn lemma_hover_reported_once<B: PartialEq>(
    hovered: Option<HoverTarget<B>>,
    candidate: Option<HoverTarget<B>>,
)
    requires
        candidate matches Some(x) ==> x.bounds.eq_spec(&x.bounds),
    ensures
        same_target(candidate, hover_after(hovered, candidate)),
        hover_after(hover_after(hovered, candidate), candidate) == hover_after(hovered, candidate),
{
}

/// Law: when `B`'s equality is `==`, a target is the same as itself, so
/// moving the pointer within the hovered span, to the same target, reports
/// nothing a second time.
pub proof fn lemma_same_target_reflexive<B: PartialEq>(t: Option<HoverTarget<B>>)
    requires
        obeys_concrete_eq::<B>(),
    ensures
        same_target(t, t),
        t matches Some(x) ==> x.bounds.eq_spec(&x.bounds),
{
    reveal(obeys_concrete_eq);
}

/// Law: setting again, against the same text, the spans that were just set
/// changes nothing and reports nothing. Validation gives the current spans
/// back, and (by `set_spans`) the hover is kept with no event, provided the
/// hovered payload equals itself by `P`'s equality; nothing hovered stays
/// nothing hovered, with no event.
pub proof fn lemma_set_spans_again<P: PartialEq, B>(
    text: &str,
    s: Seq<HighlightSpan<P>>,
    current: Seq<HighlightSpan<P>>,
    hovered: Option<HoverTarget<B>>,
)
    requires
        validated(text, s) == Ok::<Seq<HighlightSpan<P>>, HighlightSpanError>(current),
        valid_target(current, hovered),
        hovered matches Some(t) ==> current[t.index as int].payload.eq_spec(
            &current[t.index as int].payload,
        ),
    ensures
        hovered is Some ==> keeps_hover(current, current, hovered),
        hover_cleared_event::<P, B>(None::<HoverTarget<B>>) is None,
{
}

/// For spans in order, how many start at or before `offset` is the
/// position that splits those starting at or before it from the others.
proof fn lemma_count_splits<P>(s: Seq<HighlightSpan<P>>, offset: usize)
    requires
        disjoint_in_order(s),
    ensures
        count_starting_by(s, offset) <= s.len(),
        forall|i: int|
            0 <= i < count_starting_by(s, offset) ==> (#[trigger] s[i]).range.start <= offset,
        forall|i: int|
            count_starting_by(s, offset) <= i < s.len() ==> (#[trigger] s[i]).range.start > offset,
    decreases s.len(),
{
    if s.len() > 0 {
        let d = s.drop_last();
        let n = s.len() as int;
        assert(disjoint_in_order(d)) by {
            assert forall|i: int| 0 <= i < d.len() implies (#[trigger] d[i]).range.start
                < d[i].range.end by {
                assert(d[i] == s[i]);
            }
            assert forall|i: int, j: int| 0 <= i < j < d.len() implies (#[trigger] d[i]).range.end
                <= (#[trigger] d[j]).range.start by {
                assert(d[i] == s[i] && d[j] == s[j]);
            }
        }
        lemma_count_splits(d, offset);
        let c = count_starting_by(d, offset) as int;
        assert forall|i: int| 0 <= i < n - 1 implies (#[trigger] s[i]).range.start < s[n
            - 1].range.start by {
            assert(s[i].range.start < s[i].range.end);
            assert(s[i].range.end <= s[n - 1].range.start);
        }
        if s[n - 1].range.start <= offset {
            if c < n - 1 {
                assert(d[c as int] == s[c as int]);
            }
        }
        assert forall|i: int| 0 <= i < n - 1 implies #[trigger] s[i] == d[i] by {}
    }
}

/// Law: the candidates for a pointer at text offset `offset` are the last
/// span that starts at or before the offset, and the span before that one.
/// When no span starts at or before the offset there is none; a span
/// starting at 0 is thus the first candidate at offset 0.
pub proof fn lemma_candidate_pair_is_last_starting_by<P>(s: Seq<HighlightSpan<P>>, offset: usize)
    requires
        disjoint_in_order(s),
        s.len() <= usize::MAX,
    ensures
        candidate_pair(s, offset).0 matches Some(i) ==> i < s.len() && s[i as int].range.start
            <= offset && (i + 1 == s.len() || s[i + 1].range.start > offset),
        candidate_pair(s, offset).0 is None <==> forall|k: int|
            0 <= k < s.len() ==> #[trigger] s[k].range.start > offset,
        candidate_pair(s, offset).1 == match candidate_pair(s, offset).0 {
            Some(i) => if i >= 1 {
                Some((i - 1) as usize)
            } else {
                None
            },
            None => None,
        },
{
    lemma_count_splits(s, offset);
    let p = count_starting_by(s, offset);
    if p == 0 {
        assert forall|k: int| 0 <= k < s.len() implies #[trigger] s[k].range.start > offset by {}
    } else {
        assert(s[p - 1].range.start <= offset);
    }
}

/// Law: whether a replacement of the spans keeps the hover depends only on
/// the spans at the hovered index: replacements whose old spans agree at
/// that index, and whose new spans agree there, decide alike, whatever the
/// other spans are and however many there are.
pub proof fn lemma_keeps_hover_is_local<P: PartialEq, B>(
    old1: Seq<HighlightSpan<P>>,
    new1: Seq<HighlightSpan<P>>,
    old2: Seq<HighlightSpan<P>>,
    new2: Seq<HighlightSpan<P>>,
    t: HoverTarget<B>,
)
    requires
        t.index < old1.len() <==> t.index < old2.len(),
        t.index < new1.len() <==> t.index < new2.len(),
        t.index < old1.len() ==> old1[t.index as int] == old2[t.index as int],
        t.index < new1.len() ==> new1[t.index as int] == new2[t.index as int],
    ensures
        keeps_hover(old1, new1, Some(t)) == keeps_hover(old2, new2, Some(t)),
        keeps_hover(old1, new1, Some(t)) <== (t.index < old1.len() && t.index < new1.len()
            && old1[t.index as int].range == new1[t.index as int].range
            && new1[t.index as int].range == t.range
            && old1[t.index as int].payload.eq_spec(&new1[t.index as int].payload)),
{
}

} // verus!
