//! Highlight spans: byte ranges of a text with a payload each, and their
//! validation against the text.
use std::ops::Range;
use vstd::prelude::*;

verus! {

/// A byte range of the input's text together with the payload that hover
/// and click events report for it.
#[derive(Debug, PartialEq)]
pub struct HighlightSpan<P> {
    pub range: Range<usize>,
    pub payload: P,
}

impl<P: Clone> Clone for HighlightSpan<P> {
    fn clone(&self) -> (res: Self)
        ensures
            res.range == self.range,
            cloned(self.payload, res.payload),
    {
        HighlightSpan { range: self.range.start..self.range.end, payload: self.payload.clone() }
    }
}

/// Why a list of spans was refused.
#[derive(Debug, PartialEq, Eq)]
pub enum HighlightSpanError {
    /// The range covers no byte.
    EmptyRange { range: Range<usize> },
    /// The range reaches past the end of the text.
    OutOfBounds { range: Range<usize>, text_len: usize },
    /// A range bound falls inside the UTF-8 encoding of a character.
    InvalidCharBoundary { offset: usize },
    /// The range starts before the end of the range that precedes it.
    Overlap { previous: Range<usize>, current: Range<usize> },
}

impl Clone for HighlightSpanError {
    fn clone(&self) -> (res: Self)
        ensures
            res == *self,
    {
        match self {
            HighlightSpanError::EmptyRange { range } => HighlightSpanError::EmptyRange {
                range: range.start..range.end,
            },
            HighlightSpanError::OutOfBounds { range, text_len } => HighlightSpanError::OutOfBounds {
                range: range.start..range.end,
                text_len: *text_len,
            },
            HighlightSpanError::InvalidCharBoundary { offset } => {
                HighlightSpanError::InvalidCharBoundary { offset: *offset }
            },
            HighlightSpanError::Overlap { previous, current } => HighlightSpanError::Overlap {
                previous: previous.start..previous.end,
                current: current.start..current.end,
            },
        }
    }
}

/// `a` comes no later than `b` in the order by start, then by end.
pub open spec fn range_precedes(a: Range<usize>, b: Range<usize>) -> bool {
    a.start < b.start || (a.start == b.start && a.end <= b.end)
}

/// Spans ordered by start, then by end.
pub open spec fn sorted_by_range<P>(s: Seq<HighlightSpan<P>>) -> bool {
    forall|i: int, j: int| 0 <= i < j < s.len() ==> range_precedes(s[i].range, s[j].range)
}

/// Where a span with range `r` goes into the sorted `s`: after every span
/// whose range does not come after `r`.
pub open spec fn insertion_index<P>(s: Seq<HighlightSpan<P>>, r: Range<usize>) -> int
    decreases s.len(),
{
    if s.len() == 0 {
        0
    } else if range_precedes(s[0].range, r) {
        1 + insertion_index(s.drop_first(), r)
    } else {
        0
    }
}

/// `s` ordered by start, then by end; spans with equal ranges keep their
/// order (each span in turn goes after every earlier one whose range does
/// not come after its own).
pub open spec fn sort_spans<P>(s: Seq<HighlightSpan<P>>) -> Seq<HighlightSpan<P>>
    decreases s.len(),
{
    if s.len() == 0 {
        s
    } else {
        let t = sort_spans(s.drop_last());
        t.insert(insertion_index(t, s.last().range), s.last())
    }
}

/// What is wrong with the span `range` of `text` that follows a span
/// `previous`, if anything; the checks come in this order.
pub open spec fn span_error(
    text: &str,
    previous: Option<Range<usize>>,
    range: Range<usize>,
) -> Option<HighlightSpanError> {
    if !(range.start < range.end) {
        Some(HighlightSpanError::EmptyRange { range })
    } else if range.start > text.len() || range.end > text.len() {
        Some(HighlightSpanError::OutOfBounds { range, text_len: text.len() })
    } else if !text.is_char_boundary(range.start) {
        Some(HighlightSpanError::InvalidCharBoundary { offset: range.start })
    } else if !text.is_char_boundary(range.end) {
        Some(HighlightSpanError::InvalidCharBoundary { offset: range.end })
    } else {
        match previous {
            Some(p) => if range.start < p.end {
                Some(HighlightSpanError::Overlap { previous: p, current: range })
            } else {
                None
            },
            None => None,
        }
    }
}

/// The first problem among the spans `s[i..]`, each checked against the
/// span before it.
pub open spec fn first_error_from<P>(text: &str, s: Seq<HighlightSpan<P>>, i: int) -> Option<
    HighlightSpanError,
>
    decreases s.len() - i,
{
    if i < 0 || i >= s.len() {
        None
    } else {
        let previous = if i == 0 {
            None
        } else {
            Some(s[i - 1].range)
        };
        match span_error(text, previous, s[i].range) {
            Some(e) => Some(e),
            None => first_error_from(text, s, i + 1),
        }
    }
}

/// The outcome of validating `spans` against `text`: the spans in range
/// order, or the first problem found in that order.
pub open spec fn validated<P>(text: &str, spans: Seq<HighlightSpan<P>>) -> Result<
    Seq<HighlightSpan<P>>,
    HighlightSpanError,
> {
    let sorted = sort_spans(spans);
    match first_error_from(text, sorted, 0) {
        Some(e) => Err(e),
        None => Ok(sorted),
    }
}

/// The insertion index is the first position whose range comes after `r`.
proof fn lemma_insertion_index_at<P>(s: Seq<HighlightSpan<P>>, r: Range<usize>, j: int)
    requires
        0 <= j <= s.len(),
        forall|i: int| 0 <= i < j ==> range_precedes(#[trigger] s[i].range, r),
        j < s.len() ==> !range_precedes(s[j].range, r),
    ensures
        insertion_index(s, r) == j,
    decreases s.len(),
{
    if s.len() == 0 {
    } else if j == 0 {
    } else {
        assert forall|i: int| 0 <= i < j - 1 implies range_precedes(
            #[trigger] s.drop_first()[i].range,
            r,
        ) by {
            assert(s.drop_first()[i] == s[i + 1]);
        }
        assert(range_precedes(s[0].range, r));
        lemma_insertion_index_at(s.drop_first(), r, j - 1);
    }
}

/// Properties of the insertion index into a sorted sequence.
proof fn lemma_insertion_index_props<P>(s: Seq<HighlightSpan<P>>, r: Range<usize>)
    requires
        sorted_by_range(s),
    ensures
        0 <= insertion_index(s, r) <= s.len(),
        forall|i: int| 0 <= i < insertion_index(s, r) ==> range_precedes(#[trigger] s[i].range, r),
        forall|i: int|
            insertion_index(s, r) <= i < s.len() ==> !range_precedes(#[trigger] s[i].range, r),
    decreases s.len(),
{
    if s.len() == 0 {
    } else {
        let t = s.drop_first();
        assert(sorted_by_range(t)) by {
            assert forall|i: int, j: int| 0 <= i < j < t.len() implies range_precedes(
                t[i].range,
                t[j].range,
            ) by {
                assert(t[i] == s[i + 1] && t[j] == s[j + 1]);
            }
        }
        lemma_insertion_index_props(t, r);
        if range_precedes(s[0].range, r) {
            assert forall|i: int| 0 <= i < insertion_index(s, r) implies range_precedes(
                #[trigger] s[i].range,
                r,
            ) by {
                if i > 0 {
                    assert(s[i] == t[i - 1]);
                }
            }
            assert forall|i: int| insertion_index(s, r) <= i < s.len() implies !range_precedes(
                #[trigger] s[i].range,
                r,
            ) by {
                assert(s[i] == t[i - 1]);
            }
        } else {
            assert forall|i: int| 0 <= i < s.len() implies !range_precedes(
                #[trigger] s[i].range,
                r,
            ) by {
                if i > 0 {
                    assert(range_precedes(s[0].range, s[i].range));
                }
            }
        }
    }
}

/// Law: sorting puts the spans in range order.
pub proof fn lemma_sort_spans_sorted<P>(s: Seq<HighlightSpan<P>>)
    ensures
        sorted_by_range(sort_spans(s)),
        sort_spans(s).len() == s.len(),
    decreases s.len(),
{
    if s.len() > 0 {
        let t = sort_spans(s.drop_last());
        let x = s.last();
        lemma_sort_spans_sorted(s.drop_last());
        lemma_insertion_index_props(t, x.range);
        let k = insertion_index(t, x.range);
        let u = t.insert(k, x);
        assert forall|i: int, j: int| 0 <= i < j < u.len() implies range_precedes(
            u[i].range,
            u[j].range,
        ) by {
            if j < k {
                assert(u[i] == t[i] && u[j] == t[j]);
            } else if j == k {
                assert(u[i] == t[i]);
            } else if i < k {
                assert(u[i] == t[i] && u[j] == t[j - 1]);
                assert(range_precedes(t[i].range, x.range));
                assert(!range_precedes(t[j - 1].range, x.range));
            } else if i == k {
                assert(u[j] == t[j - 1]);
                assert(!range_precedes(t[j - 1].range, x.range));
            } else {
                assert(u[i] == t[i - 1] && u[j] == t[j - 1]);
            }
        }
    }
}

/// Law: sorting keeps every span, as often as it occurs.
pub proof fn lemma_sort_spans_permutation<P>(s: Seq<HighlightSpan<P>>)
    ensures
        sort_spans(s).to_multiset() == s.to_multiset(),
    decreases s.len(),
{
    broadcast use vstd::seq_lib::group_to_multiset_ensures, vstd::multiset::group_multiset_axioms;

    if s.len() > 0 {
        let t = sort_spans(s.drop_last());
        let x = s.last();
        lemma_sort_spans_permutation(s.drop_last());
        lemma_sort_spans_sorted(s.drop_last());
        lemma_insertion_index_props(t, x.range);
        let k = insertion_index(t, x.range);
        let u = t.insert(k, x);
        assert(u.remove(k) =~= t);
        assert(u[k] == x);
        assert(t.to_multiset() == u.to_multiset().remove(x));
        assert(u.to_multiset().count(x) > 0);
        assert(u.to_multiset() =~= t.to_multiset().insert(x));
        assert(s =~= s.drop_last().push(x));
    }
}

/// Law: spans already in range order are left as they are.
pub proof fn lemma_sort_spans_of_sorted<P>(s: Seq<HighlightSpan<P>>)
    requires
        sorted_by_range(s),
    ensures
        sort_spans(s) == s,
    decreases s.len(),
{
    if s.len() > 0 {
        let d = s.drop_last();
        assert(sorted_by_range(d)) by {
            assert forall|i: int, j: int| 0 <= i < j < d.len() implies range_precedes(
                d[i].range,
                d[j].range,
            ) by {
                assert(d[i] == s[i] && d[j] == s[j]);
            }
        }
        lemma_sort_spans_of_sorted(d);
        assert forall|i: int| 0 <= i < d.len() implies range_precedes(
            #[trigger] d[i].range,
            s.last().range,
        ) by {
            assert(d[i] == s[i]);
        }
        lemma_insertion_index_at(d, s.last().range, d.len() as int);
        assert(d.insert(d.len() as int, s.last()) =~= s);
    }
}

/// Spans that are each non-empty and each end no later than the next one
/// starts.
pub open spec fn disjoint_in_order<P>(s: Seq<HighlightSpan<P>>) -> bool {
    &&& forall|i: int| 0 <= i < s.len() ==> (#[trigger] s[i]).range.start < s[i].range.end
    &&& forall|i: int, j: int|
        0 <= i < j < s.len() ==> (#[trigger] s[i]).range.end <= (#[trigger] s[j]).range.start
}

/// When no problem is reported from `i` on, every span from `i` on passes
/// its checks.
proof fn lemma_first_error_none<P>(text: &str, s: Seq<HighlightSpan<P>>, i: int)
    requires
        0 <= i,
        first_error_from(text, s, i) is None,
    ensures
        forall|k: int|
            i <= k < s.len() ==> span_error(
                text,
                if k == 0 {
                    None
                } else {
                    Some(s[k - 1].range)
                },
                #[trigger] s[k].range,
            ) is None,
    decreases s.len() - i,
{
    if i < s.len() {
        lemma_first_error_none(text, s, i + 1);
    }
}

/// Law: what validation accepts is the input in another order, sorted by
/// range, and its spans are non-empty, lie within the text, start and end
/// on character boundaries and do not overlap.
pub proof fn lemma_validated_ok<P>(text: &str, spans: Seq<HighlightSpan<P>>)
    requires
        validated(text, spans) is Ok,
    ensures
        ({
            let v = validated(text, spans)->Ok_0;
            &&& v.to_multiset() == spans.to_multiset()
            &&& sorted_by_range(v)
            &&& disjoint_in_order(v)
            &&& forall|i: int|
                0 <= i < v.len() ==> {
                    &&& (#[trigger] v[i]).range.end <= text.len()
                    &&& text.is_char_boundary(v[i].range.start)
                    &&& text.is_char_boundary(v[i].range.end)
                }
        }),
{
    let v = sort_spans(spans);
    lemma_sort_spans_permutation(spans);
    lemma_sort_spans_sorted(spans);
    lemma_first_error_none(text, v, 0);
    assert forall|i: int| 0 <= i < v.len() implies (#[trigger] v[i]).range.start < v[i].range.end
        && v[i].range.end <= text.len() && text.is_char_boundary(v[i].range.start)
        && text.is_char_boundary(v[i].range.end) by {
        assert(span_error(text, if i == 0 { None } else { Some(v[i - 1].range) }, v[i].range) is None);
    }
    assert forall|k: int| 0 < k < v.len() implies v[k - 1].range.end <= (
    #[trigger] v[k]).range.start by {
        assert(span_error(text, Some(v[k - 1].range), v[k].range) is None);
    }
    assert forall|i: int, j: int| 0 <= i < j < v.len() implies (#[trigger] v[i]).range.end <= (
    #[trigger] v[j]).range.start by {
        lemma_chain(v, i, j);
    }
}

/// Law: validating what validation accepted accepts it again, unchanged.
pub proof fn lemma_validated_idempotent<P>(text: &str, spans: Seq<HighlightSpan<P>>)
    requires
        validated(text, spans) is Ok,
    ensures
        validated(text, validated(text, spans)->Ok_0) == validated(text, spans),
{
    let v = sort_spans(spans);
    lemma_sort_spans_sorted(spans);
    lemma_sort_spans_of_sorted(v);
}


/// The first problem from `i` on is that of the first span from `i` on that
/// fails its checks, if there is one.
proof fn lemma_first_error_at<P>(text: &str, s: Seq<HighlightSpan<P>>, i: int) -> (k: int)
    requires
        0 <= i <= s.len(),
    ensures
        i <= k <= s.len(),
        forall|j: int|
            i <= j < k ==> span_error(
                text,
                if j == 0 {
                    None
                } else {
                    Some(s[j - 1].range)
                },
                #[trigger] s[j].range,
            ) is None,
        k == s.len() ==> first_error_from(text, s, i) is None,
        k < s.len() ==> first_error_from(text, s, i) == span_error(
            text,
            if k == 0 {
                None
            } else {
                Some(s[k - 1].range)
            },
            s[k].range,
        ),
        k < s.len() ==> first_error_from(text, s, i) is Some,
    decreases s.len() - i,
{
    if i == s.len() {
        i
    } else {
        let previous = if i == 0 {
            None
        } else {
            Some(s[i - 1].range)
        };
        if span_error(text, previous, s[i].range) is Some {
            i
        } else {
            lemma_first_error_at(text, s, i + 1)
        }
    }
}

/// Law: validation checks the spans in range order and answers with the
/// first span that fails. Every span before it is non-empty, within the
/// text, on character boundaries and starts no earlier than the one before
/// it ends; when no span fails the spans come back sorted. The failing span
/// is named by the first check it fails, in this order: an empty range, a
/// range past the end of the text, a start and then an end off a character
/// boundary, an overlap with the span before it.
pub proof fn lemma_validated_outcome<P>(text: &str, spans: Seq<HighlightSpan<P>>) -> (k: int)
    ensures
        0 <= k <= spans.len(),
        ({
            let v = sort_spans(spans);
            &&& v.len() == spans.len()
            &&& forall|j: int|
                0 <= j < k ==> {
                    &&& (#[trigger] v[j]).range.start < v[j].range.end
                    &&& v[j].range.end <= text.len()
                    &&& text.is_char_boundary(v[j].range.start)
                    &&& text.is_char_boundary(v[j].range.end)
                    &&& j > 0 ==> v[j - 1].range.end <= v[j].range.start
                }
            &&& k == spans.len() ==> validated(text, spans) == Ok::<
                Seq<HighlightSpan<P>>,
                HighlightSpanError,
            >(v)
            &&& k < spans.len() ==> {
                let r = v[k].range;
                validated(text, spans) == Err::<Seq<HighlightSpan<P>>, HighlightSpanError>(
                    if r.end <= r.start {
                        HighlightSpanError::EmptyRange { range: r }
                    } else if r.end > text.len() {
                        HighlightSpanError::OutOfBounds { range: r, text_len: text.len() }
                    } else if !text.is_char_boundary(r.start) {
                        HighlightSpanError::InvalidCharBoundary { offset: r.start }
                    } else if !text.is_char_boundary(r.end) {
                        HighlightSpanError::InvalidCharBoundary { offset: r.end }
                    } else {
                        HighlightSpanError::Overlap { previous: v[k - 1].range, current: r }
                    },
                ) && (k > 0 && r.start < r.end && r.end <= text.len()
                    && text.is_char_boundary(r.start) && text.is_char_boundary(r.end)
                    ==> r.start < v[k - 1].range.end)
            }
        }),
{
    let v = sort_spans(spans);
    lemma_sort_spans_sorted(spans);
    let k = lemma_first_error_at(text, v, 0);
    assert forall|j: int| 0 <= j < k implies {
        &&& (#[trigger] v[j]).range.start < v[j].range.end
        &&& v[j].range.end <= text.len()
        &&& text.is_char_boundary(v[j].range.start)
        &&& text.is_char_boundary(v[j].range.end)
        &&& j > 0 ==> v[j - 1].range.end <= v[j].range.start
    } by {
        assert(span_error(text, if j == 0 { None } else { Some(v[j - 1].range) }, v[j].range) is None);
    }
    k
}
/// The ranges of `s`, in order.
pub open spec fn range_keys<P>(s: Seq<HighlightSpan<P>>) -> Seq<Range<usize>> {
    s.map_values(|x: HighlightSpan<P>| x.range)
}

/// The problems found depend on the ranges alone.
proof fn lemma_first_error_ranges_only<P>(
    text: &str,
    s1: Seq<HighlightSpan<P>>,
    s2: Seq<HighlightSpan<P>>,
    i: int,
)
    requires
        0 <= i,
        range_keys(s1) == range_keys(s2),
    ensures
        first_error_from(text, s1, i) == first_error_from(text, s2, i),
    decreases s1.len() - i,
{
    assert(s1.len() == range_keys(s1).len());
    assert(s2.len() == range_keys(s2).len());
    if i < s1.len() {
        assert(s1[i].range == range_keys(s1)[i]);
        assert(s2[i].range == range_keys(s2)[i]);
        if i > 0 {
            assert(s1[i - 1].range == range_keys(s1)[i - 1]);
            assert(s2[i - 1].range == range_keys(s2)[i - 1]);
        }
        lemma_first_error_ranges_only(text, s1, s2, i + 1);
    }
}

/// Ranges that each come no later than the other are equal.
proof fn lemma_precedes_antisymmetric(a: Range<usize>, b: Range<usize>)
    requires
        range_precedes(a, b),
        range_precedes(b, a),
    ensures
        a == b,
{
}

/// Removing a span keeps the rest in range order.
proof fn lemma_sorted_remove<P>(s: Seq<HighlightSpan<P>>, j: int)
    requires
        sorted_by_range(s),
        0 <= j < s.len(),
    ensures
        sorted_by_range(s.remove(j)),
{
    let t = s.remove(j);
    assert forall|i: int, k: int| 0 <= i < k < t.len() implies range_precedes(
        t[i].range,
        t[k].range,
    ) by {
        let i0 = if i < j {
            i
        } else {
            i + 1
        };
        let k0 = if k < j {
            k
        } else {
            k + 1
        };
        assert(t[i] == s[i0] && t[k] == s[k0]);
    }
}

/// Two sequences in range order that hold the same spans have the same
/// ranges, in the same order.
proof fn lemma_sorted_same_ranges<P>(a: Seq<HighlightSpan<P>>, b: Seq<HighlightSpan<P>>)
    requires
        sorted_by_range(a),
        sorted_by_range(b),
        a.to_multiset() == b.to_multiset(),
    ensures
        range_keys(a) == range_keys(b),
    decreases a.len(),
{
    broadcast use vstd::seq_lib::group_to_multiset_ensures, vstd::multiset::group_multiset_axioms;

    assert(a.to_multiset().len() == a.len());
    assert(b.to_multiset().len() == b.len());
    if a.len() == 0 {
        assert(range_keys(a) =~= range_keys(b));
    } else {
        assert(b.len() == a.len());
        let n = a.len() as int;
        let x = a[n - 1];
        let y = b[n - 1];
        assert(a.to_multiset().count(x) > 0);
        assert(b.contains(x));
        let j = choose|j: int| 0 <= j < b.len() && b[j] == x;
        assert(b.to_multiset().count(y) > 0);
        assert(a.contains(y));
        let i = choose|i: int| 0 <= i < a.len() && a[i] == y;
        if j < n - 1 {
            assert(range_precedes(b[j].range, b[n - 1].range));
        }
        if i < n - 1 {
            assert(range_precedes(a[i].range, a[n - 1].range));
        }
        lemma_precedes_antisymmetric(x.range, y.range);
        let a1 = a.remove(n - 1);
        let b1 = b.remove(j);
        assert(a1 =~= a.drop_last());
        lemma_sorted_remove(a, n - 1);
        lemma_sorted_remove(b, j);
        assert(a1.to_multiset() == a.to_multiset().remove(x));
        assert(b1.to_multiset() == b.to_multiset().remove(x));
        lemma_sorted_same_ranges(a1, b1);
        assert forall|k: int| 0 <= k < n implies #[trigger] range_keys(a)[k] == range_keys(b)[k] by {
            if k == n - 1 {
            } else {
                assert(range_keys(a)[k] == a1[k].range);
                assert(range_keys(a1)[k] == range_keys(b1)[k]);
                if k < j {
                    assert(b1[k] == b[k]);
                } else {
                    assert(b1[k] == b[k + 1]);
                    assert(range_precedes(b[j].range, b[k].range) || j == k);
                    assert(range_precedes(b[k].range, b[k + 1].range));
                    if k + 1 < n - 1 {
                        assert(range_precedes(b[k + 1].range, b[n - 1].range));
                    }
                    if j < k {
                        assert(range_precedes(b[j].range, b[k].range));
                    }
                    assert(range_precedes(b[k + 1].range, y.range));
                    assert(range_precedes(x.range, b[k].range));
                    lemma_precedes_antisymmetric(b[k].range, b[k + 1].range);
                }
            }
        }
        assert(range_keys(a) =~= range_keys(b));
    }
}

/// Two sequences in range order that hold the same spans, one of them with
/// every range starting after the one before it, are equal.
proof fn lemma_sorted_same_spans<P>(a: Seq<HighlightSpan<P>>, b: Seq<HighlightSpan<P>>)
    requires
        sorted_by_range(a),
        sorted_by_range(b),
        a.to_multiset() == b.to_multiset(),
        disjoint_in_order(a),
    ensures
        a == b,
{
    broadcast use vstd::seq_lib::group_to_multiset_ensures, vstd::multiset::group_multiset_axioms;

    lemma_sorted_same_ranges(a, b);
    assert(a.len() == range_keys(a).len());
    assert(b.len() == range_keys(b).len());
    assert forall|i: int| 0 <= i < a.len() implies #[trigger] a[i] == b[i] by {
        assert(b.to_multiset().count(a[i]) > 0);
        assert(b.contains(a[i]));
        let j = choose|j: int| 0 <= j < b.len() && b[j] == a[i];
        assert(range_keys(b)[j] == range_keys(a)[j]);
        assert(range_keys(b)[i] == range_keys(a)[i]);
        assert(a[j].range == a[i].range);
        if j < i {
            assert(a[j].range.end <= a[i].range.start);
        } else if i < j {
            assert(a[i].range.end <= a[j].range.start);
        }
    }
    assert(a =~= b);
}

/// Law: validation does not depend on the order in which the spans come:
/// spans given in any other order give the same outcome, the same sorted
/// spans or the same error.
pub proof fn lemma_validated_order_independent<P>(
    text: &str,
    a: Seq<HighlightSpan<P>>,
    b: Seq<HighlightSpan<P>>,
)
    requires
        a.to_multiset() == b.to_multiset(),
    ensures
        validated(text, a) == validated(text, b),
{
    let sa = sort_spans(a);
    let sb = sort_spans(b);
    lemma_sort_spans_sorted(a);
    lemma_sort_spans_sorted(b);
    lemma_sort_spans_permutation(a);
    lemma_sort_spans_permutation(b);
    lemma_sorted_same_ranges(sa, sb);
    lemma_first_error_ranges_only(text, sa, sb, 0);
    if first_error_from(text, sa, 0) is None {
        lemma_validated_ok(text, a);
        lemma_sorted_same_spans(sa, sb);
    }
}

/// Spans that each end before the next one starts end before every later
/// span starts.
proof fn lemma_chain<P>(v: Seq<HighlightSpan<P>>, i: int, j: int)
    requires
        0 <= i < j < v.len(),
        forall|k: int| 0 <= k < v.len() ==> (#[trigger] v[k]).range.start < v[k].range.end,
        forall|k: int| 0 < k < v.len() ==> v[k - 1].range.end <= (#[trigger] v[k]).range.start,
    ensures
        v[i].range.end <= v[j].range.start,
    decreases j - i,
{
    assert(v[j - 1].range.end <= v[j].range.start);
    if i < j - 1 {
        lemma_chain(v, i, j - 1);
        assert(v[j - 1].range.start < v[j - 1].range.end);
    }
}

/// Whether `a` comes no later than `b` in the order by start, then by end.
fn precedes(a: &Range<usize>, b: &Range<usize>) -> (res: bool)
    ensures
        res == range_precedes(*a, *b),
{
    a.start < b.start || (a.start == b.start && a.end <= b.end)
}

/// Where a span with range `r` goes into `sorted`.
fn insertion_position<P>(sorted: &Vec<HighlightSpan<P>>, r: &Range<usize>) -> (pos: usize)
    ensures
        pos == insertion_index(sorted@, *r),
        pos <= sorted.len(),
{
    let n = sorted.len();
    let mut j: usize = 0;
    while j < n && precedes(&sorted[j].range, r)
        invariant
            j <= n,
            n == sorted.len(),
            forall|i: int| 0 <= i < j ==> range_precedes(#[trigger] sorted@[i].range, *r),
        decreases n - j,
    {
        j = j + 1;
    }
    proof {
        lemma_insertion_index_at(sorted@, *r, j as int);
    }
    j
}

/// Sorts spans by range, stably, by insertion.
fn sort_by_range<P>(spans: Vec<HighlightSpan<P>>) -> (sorted: Vec<HighlightSpan<P>>)
    ensures
        sorted@ == sort_spans(spans@),
{
    let ghost orig = spans@;
    let total = spans.len();
    let mut rest = spans;
    let mut sorted: Vec<HighlightSpan<P>> = Vec::new();
    let mut k: usize = 0;
    proof {
        assert(orig.take(0) =~= Seq::<HighlightSpan<P>>::empty());
        assert(orig.skip(0) =~= orig);
    }
    while rest.len() > 0
        invariant
            total == orig.len(),
            k + rest.len() == orig.len(),
            rest@ == orig.skip(k as int),
            sorted@ == sort_spans(orig.take(k as int)),
        decreases rest.len(),
    {
        let x = rest.remove(0);
        let pos = insertion_position(&sorted, &x.range);
        sorted.insert(pos, x);
        proof {
            assert(orig.take(k + 1).drop_last() =~= orig.take(k as int));
            assert(orig.take(k + 1).last() == orig[k as int]);
            assert(orig.skip(k + 1) =~= orig.skip(k as int).drop_first());
        }
        k = k + 1;
    }
    proof {
        assert(orig.take(k as int) =~= orig);
    }
    sorted
}

/// Sorts `spans` by range and checks them against `text`: every range must
/// be non-empty, lie within the text, start and end on character
/// boundaries, and not start before the end of the range before it
/// (ranges may touch). The checks run span by span in range order, and the
/// first failure is reported; on success the sorted spans are returned.
pub fn validate_spans<P>(text: &str, spans: Vec<HighlightSpan<P>>) -> (res: Result<
    Vec<HighlightSpan<P>>,
    HighlightSpanError,
>)
    ensures
        validated(text, spans@) matches Ok(s) ==> res matches Ok(v) && v@ == s,
        validated(text, spans@) matches Err(e) ==> res == Err::<Vec<HighlightSpan<P>>, _>(e),
{
    let sorted = sort_by_range(spans);
    let n = sorted.len();
    let text_len = text.len();
    let mut i: usize = 0;
    while i < n
        invariant
            i <= n,
            n == sorted.len(),
            text_len == text.len(),
            sorted@ == sort_spans(spans@),
            first_error_from(text, sorted@, 0) == first_error_from(text, sorted@, i as int),
        decreases n - i,
    {
        let range = &sorted[i].range;
        if !(range.start < range.end) {
            return Err(HighlightSpanError::EmptyRange { range: range.start..range.end });
        }
        if range.start > text_len || range.end > text_len {
            return Err(
                HighlightSpanError::OutOfBounds { range: range.start..range.end, text_len },
            );
        }
        if !text.is_char_boundary(range.start) {
            return Err(HighlightSpanError::InvalidCharBoundary { offset: range.start });
        }
        if !text.is_char_boundary(range.end) {
            return Err(HighlightSpanError::InvalidCharBoundary { offset: range.end });
        }
        if i > 0 {
            let previous = &sorted[i - 1].range;
            if range.start < previous.end {
                return Err(
                    HighlightSpanError::Overlap {
                        previous: previous.start..previous.end,
                        current: range.start..range.end,
                    },
                );
            }
        }
        i = i + 1;
    }
    Ok(sorted)
}

} // verus!
