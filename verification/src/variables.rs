//! Scanner for `{{name}}` template variables.
use std::ops::Range;
use vstd::prelude::*;
use vstd::string::StringSliceAdditionalSpecFns;
use vstd::utf8::*;
use crate::highlight::{
    first_error_from, range_precedes, sorted_by_range, span_error, validated, HighlightSpan,
    HighlightSpanError, lemma_sort_spans_of_sorted,
};
use crate::text::{byte_offset, is_white_space, lemma_trim_shape, lemma_byte_offset_is_char_boundary, lemma_encode_concat, lemma_byte_offset_split,
    lemma_byte_offset_strictly_increasing, byte_offsets, chars_of, substring, trim, trimmed_bounds};

verus! {

/// A template variable found in a text: the byte range of the whole
/// `{{ ... }}` and the trimmed name between the braces.
#[derive(Debug, PartialEq, Eq)]
pub struct Span {
    pub range: Range<usize>,
    pub name: String,
}

impl Clone for Span {
    fn clone(&self) -> (res: Self)
        ensures
            res == *self,
    {
        Span { range: self.range.start..self.range.end, name: self.name.clone() }
    }
}

impl View for Span {
    type V = (nat, nat, Seq<char>);

    open spec fn view(&self) -> (nat, nat, Seq<char>) {
        (self.range.start as nat, self.range.end as nat, self.name@)
    }
}

/// Two characters `c` stand at positions `i` and `i + 1` of `s`.
pub open spec fn is_pair_at(s: Seq<char>, i: int, c: char) -> bool {
    0 <= i && i + 1 < s.len() && s[i] == c && s[i + 1] == c
}

/// The first position at or after `from` where two characters `c` stand.
pub open spec fn pair_from(s: Seq<char>, from: int, c: char) -> Option<int>
    decreases s.len() - from,
{
    if from < 0 || from + 1 >= s.len() {
        None
    } else if is_pair_at(s, from, c) {
        Some(from)
    } else {
        pair_from(s, from + 1, c)
    }
}

/// The last position `j` with `lo <= j <= i` where `{{` stands, or `lo`
/// when there is none.
pub open spec fn last_open_within(s: Seq<char>, lo: int, i: int) -> int
    decreases i - lo,
{
    if i <= lo {
        lo
    } else if is_pair_at(s, i, '{') {
        i
    } else {
        last_open_within(s, lo, i - 1)
    }
}

/// The variables of `s` from character position `cursor` on, each as the
/// byte range of its `{{ ... }}` and its trimmed name.
///
/// From `cursor`, the next `{{` opens a candidate and the next `}}` after
/// it closes it; of several openers before that closer, the last one counts.
/// A candidate whose name is empty after trimming is skipped. Scanning goes
/// on after the closer, and stops at the first opener without a closer.
pub open spec fn scan_variables(s: Seq<char>, cursor: int) -> Seq<(nat, nat, Seq<char>)>
    decreases s.len() - cursor,
{
    if cursor < 0 || cursor > s.len() {
        seq![]
    } else {
        match pair_from(s, cursor, '{') {
            None => seq![],
            Some(first) => match pair_from(s, first + 2, '}') {
                None => seq![],
                Some(close) => {
                    proof {
                        lemma_pair_from_bounds(s, cursor, '{');
                        lemma_pair_from_bounds(s, first + 2, '}');
                    }
                    let start = last_open_within(s, first, close - 2);
                    let end = close + 2;
                    let name = trim(s.subrange(start + 2, close));
                    let rest = scan_variables(s, end);
                    if name.len() == 0 {
                        rest
                    } else {
                        seq![(byte_offset(s, start), byte_offset(s, end), name)] + rest
                    }
                },
            },
        }
    }
}

/// What `spans` returns for a text whose characters are `s`.
pub open spec fn variables_of(s: Seq<char>) -> Seq<(nat, nat, Seq<char>)> {
    scan_variables(s, 0)
}

/// A found pair lies at or after the start of the search and inside `s`.
pub proof fn lemma_pair_from_bounds(s: Seq<char>, from: int, c: char)
    requires
        0 <= from,
    ensures
        pair_from(s, from, c) matches Some(i) ==> from <= i && is_pair_at(s, i, c) && forall|j: int|
            from <= j < i ==> !is_pair_at(s, j, c),
        pair_from(s, from, c) is None ==> forall|j: int| from <= j ==> !is_pair_at(s, j, c),
    decreases s.len() - from,
{
    if from < 0 || from + 1 >= s.len() {
    } else if is_pair_at(s, from, c) {
    } else {
        lemma_pair_from_bounds(s, from + 1, c);
    }
}

/// The opener chosen before a closer lies between the first opener and the
/// closer, and is an opener.
pub proof fn lemma_last_open_within_bounds(s: Seq<char>, lo: int, i: int)
    requires
        lo <= i,
        is_pair_at(s, lo, '{'),
    ensures
        lo <= last_open_within(s, lo, i) <= i,
        is_pair_at(s, last_open_within(s, lo, i), '{'),
        forall|j: int| last_open_within(s, lo, i) < j <= i ==> !is_pair_at(s, j, '{'),
    decreases i - lo,
{
    if i <= lo {
    } else if is_pair_at(s, i, '{') {
    } else {
        lemma_last_open_within_bounds(s, lo, i - 1);
    }
}

/// The variables found from `cursor` on lie, in order and without
/// overlap, between the byte offset of `cursor` and the end of the text,
/// each non-empty and bounded by character boundaries.
pub proof fn lemma_scan_variables_layout(s: Seq<char>, cursor: int)
    requires
        0 <= cursor <= s.len(),
    ensures
        forall|i: int|
            0 <= i < scan_variables(s, cursor).len() ==> {
                let v = #[trigger] scan_variables(s, cursor)[i];
                &&& byte_offset(s, cursor) <= v.0 < v.1 <= encode_utf8(s).len()
                &&& is_char_boundary(encode_utf8(s), v.0 as int)
                &&& is_char_boundary(encode_utf8(s), v.1 as int)
            },
        forall|i: int, j: int|
            0 <= i < j < scan_variables(s, cursor).len() ==> (#[trigger] scan_variables(s, cursor)[i]).1
                <= (#[trigger] scan_variables(s, cursor)[j]).0,
    decreases s.len() - cursor,
{
    lemma_pair_from_bounds(s, cursor, '{');
    if let Some(first) = pair_from(s, cursor, '{') {
        lemma_pair_from_bounds(s, first + 2, '}');
        if let Some(close) = pair_from(s, first + 2, '}') {
            let start = last_open_within(s, first, close - 2);
            let end = close + 2;
            lemma_last_open_within_bounds(s, first, close - 2);
            lemma_scan_variables_layout(s, end);
            let rest = scan_variables(s, end);
            let name = trim(s.subrange(start + 2, close));
            lemma_byte_offset_strictly_increasing(s, start, end);
            lemma_byte_offset_strictly_increasing(s, cursor, end);
            if cursor < start {
                lemma_byte_offset_strictly_increasing(s, cursor, start);
            }
            lemma_byte_offset_split(s, end);
            lemma_byte_offset_is_char_boundary(s, start);
            lemma_byte_offset_is_char_boundary(s, end);
            if name.len() != 0 {
                let v = (byte_offset(s, start), byte_offset(s, end), name);
                assert(scan_variables(s, cursor) == seq![v] + rest);
                assert forall|i: int, j: int|
                    0 <= i < j < scan_variables(s, cursor).len() implies (
                    #[trigger] scan_variables(s, cursor)[i]).1 <= (
                    #[trigger] scan_variables(s, cursor)[j]).0 by {
                    if i == 0 {
                        assert(scan_variables(s, cursor)[j] == rest[j - 1]);
                    } else {
                        assert(scan_variables(s, cursor)[i] == rest[i - 1]);
                        assert(scan_variables(s, cursor)[j] == rest[j - 1]);
                    }
                }
                assert forall|i: int| 0 <= i < scan_variables(s, cursor).len() implies {
                    let w = #[trigger] scan_variables(s, cursor)[i];
                    &&& byte_offset(s, cursor) <= w.0 < w.1 <= encode_utf8(s).len()
                    &&& is_char_boundary(encode_utf8(s), w.0 as int)
                    &&& is_char_boundary(encode_utf8(s), w.1 as int)
                } by {
                    if i > 0 {
                        assert(scan_variables(s, cursor)[i] == rest[i - 1]);
                    }
                }
            }
        }
    }
}

/// No span of `hs` from position `i` on has a problem, so none is reported.
proof fn lemma_no_error_from<P>(text: &str, hs: Seq<HighlightSpan<P>>, i: int)
    requires
        0 <= i,
        forall|k: int|
            i <= k < hs.len() ==> span_error(
                text,
                if k == 0 {
                    None
                } else {
                    Some(hs[k - 1].range)
                },
                #[trigger] hs[k].range,
            ) is None,
    ensures
        first_error_from(text, hs, i) is None,
    decreases hs.len() - i,
{
    if i < hs.len() {
        lemma_no_error_from(text, hs, i + 1);
    }
}

/// Law: the variables that `spans` finds in a text, with any payloads,
/// pass validation against that text unchanged: they come in range order,
/// and each is non-empty, within the text, on character boundaries and
/// clear of the one before it.
pub proof fn lemma_variables_validate<P>(text: &str, hs: Seq<HighlightSpan<P>>)
    requires
        text.spec_bytes().len() <= usize::MAX,
        hs.len() == variables_of(text@).len(),
        forall|i: int|
            0 <= i < hs.len() ==> (#[trigger] hs[i]).range.start == variables_of(text@)[i].0
                && hs[i].range.end == variables_of(text@)[i].1,
    ensures
        validated(text, hs) == Ok::<Seq<HighlightSpan<P>>, HighlightSpanError>(hs),
{
    let s = text@;
    let vs = variables_of(s);
    lemma_scan_variables_layout(s, 0);
    assert(s.take(0) =~= Seq::<char>::empty());
    assert forall|i: int, j: int| 0 <= i < j < hs.len() implies range_precedes(
        hs[i].range,
        hs[j].range,
    ) by {
        assert(vs[i].1 <= vs[j].0);
        assert(vs[i].0 < vs[i].1);
    }
    assert(sorted_by_range(hs));
    lemma_sort_spans_of_sorted(hs);
    assert forall|k: int| 0 <= k < hs.len() implies span_error(
        text,
        if k == 0 {
            None
        } else {
            Some(hs[k - 1].range)
        },
        #[trigger] hs[k].range,
    ) is None by {
        assert(vs[k].0 < vs[k].1);
        if k > 0 {
            assert(vs[k - 1].1 <= vs[k].0);
        }
    }
    lemma_no_error_from(text, hs, 0);
}

/// The characters `s[cs..ce]` form a variable: `{{`, an inner part in
/// which no `{{` or `}}` starts (not even one that reaches into the braces
/// around it), and `}}`, with a name that is not blank.
pub open spec fn is_variable(s: Seq<char>, cs: int, ce: int) -> bool {
    &&& 0 <= cs
    &&& cs + 4 <= ce <= s.len()
    &&& is_pair_at(s, cs, '{')
    &&& is_pair_at(s, ce - 2, '}')
    &&& forall|j: int| cs < j < ce - 2 ==> !is_pair_at(s, j, '{') && !is_pair_at(s, j, '}')
    &&& trim(s.subrange(cs + 2, ce - 2)).len() > 0
}

/// What `spans` reports for the variable `s[cs..ce]`: its byte range and
/// its trimmed name.
pub open spec fn variable_view(s: Seq<char>, cs: int, ce: int) -> (nat, nat, Seq<char>) {
    (byte_offset(s, cs), byte_offset(s, ce), trim(s.subrange(cs + 2, ce - 2)))
}

/// The `i`-th thing found from `cursor` on is a variable; its character
/// positions are returned.
proof fn lemma_scan_variables_sound(s: Seq<char>, cursor: int, i: int) -> (r: (int, int))
    requires
        0 <= cursor <= s.len(),
        0 <= i < scan_variables(s, cursor).len(),
    ensures
        is_variable(s, r.0, r.1),
        scan_variables(s, cursor)[i] == variable_view(s, r.0, r.1),
    decreases s.len() - cursor,
{
    lemma_pair_from_bounds(s, cursor, '{');
    let first = pair_from(s, cursor, '{')->Some_0;
    lemma_pair_from_bounds(s, first + 2, '}');
    let close = pair_from(s, first + 2, '}')->Some_0;
    let start = last_open_within(s, first, close - 2);
    let end = close + 2;
    lemma_last_open_within_bounds(s, first, close - 2);
    let rest = scan_variables(s, end);
    let name = trim(s.subrange(start + 2, close));
    if name.len() == 0 {
        assert(scan_variables(s, cursor) == rest);
        lemma_scan_variables_sound(s, end, i)
    } else {
        assert(scan_variables(s, cursor) == seq![variable_view(s, start, end)] + rest);
        if i > 0 {
            assert(scan_variables(s, cursor)[i] == rest[i - 1]);
            lemma_scan_variables_sound(s, end, i - 1)
        } else {
            assert forall|j: int| start < j < end - 2 implies !is_pair_at(s, j, '{') && !is_pair_at(
                s,
                j,
                '}',
            ) by {
                if j == close - 1 {
                    assert(s[close] == '}');
                }
                if j < first + 2 {
                    assert(j == first + 1);
                    assert(s[first + 1] == '{');
                }
            }
            (start, end)
        }
    }
}

/// A variable at or after `cursor` is found when scanning from `cursor`.
proof fn lemma_scan_variables_complete(s: Seq<char>, cursor: int, cs: int, ce: int)
    requires
        0 <= cursor <= cs,
        is_variable(s, cs, ce),
    ensures
        scan_variables(s, cursor).contains(variable_view(s, cs, ce)),
    decreases s.len() - cursor,
{
    lemma_pair_from_bounds(s, cursor, '{');
    let first = pair_from(s, cursor, '{')->Some_0;
    assert(first <= cs);
    lemma_pair_from_bounds(s, first + 2, '}');
    let close = pair_from(s, first + 2, '}')->Some_0;
    assert(close <= ce - 2);
    let start = last_open_within(s, first, close - 2);
    let end = close + 2;
    let rest = scan_variables(s, end);
    let name = trim(s.subrange(start + 2, close));
    if close < cs {
        assert(close + 1 != cs) by {
            assert(s[close + 1] == '}');
        }
        lemma_scan_variables_complete(s, end, cs, ce);
        let k = choose|k: int| 0 <= k < rest.len() && rest[k] == variable_view(s, cs, ce);
        if name.len() == 0 {
        } else {
            assert(scan_variables(s, cursor) == seq![variable_view(s, start, end)] + rest);
            assert(scan_variables(s, cursor)[k + 1] == variable_view(s, cs, ce));
        }
    } else {
        assert(close == ce - 2) by {
            if close < ce - 2 {
                if close == cs {
                    assert(s[cs] == '{');
                } else if close == cs + 1 {
                    assert(s[cs + 1] == '{');
                }
            }
        }
        lemma_last_open_within_bounds(s, first, close - 2);
        assert(start == cs);
        assert(scan_variables(s, cursor) == seq![variable_view(s, cs, ce)] + rest);
        assert(scan_variables(s, cursor)[0] == variable_view(s, cs, ce));
    }
}

/// Law (soundness): everything `spans` finds is a variable of the text:
/// `{{`, an inner part in which no `{{` or `}}` starts, and `}}`, with a
/// name that is not blank, reported by its byte range and trimmed name.
/// The `i`-th find is the variable at the returned character positions.
pub proof fn lemma_variables_sound(s: Seq<char>, i: int) -> (r: (int, int))
    requires
        0 <= i < variables_of(s).len(),
    ensures
        is_variable(s, r.0, r.1),
        variables_of(s)[i] == variable_view(s, r.0, r.1),
{
    lemma_scan_variables_sound(s, 0, i)
}

/// Law: the name reported for each variable is its inner text with all
/// surrounding white space removed. For the `i`-th find, at the returned
/// character positions `(cs, ce, lo, hi)`: `{{` stands at `cs` and `}}`
/// ends at `ce`, the range is their byte offsets, and the name is
/// `s[lo..hi]` inside the braces, not empty, neither starting nor ending
/// with white space, with only white space between it and the braces.
pub proof fn lemma_variable_names_trimmed(s: Seq<char>, i: int) -> (r: (int, int, int, int))
    requires
        0 <= i < variables_of(s).len(),
    ensures
        0 <= r.0,
        r.0 + 2 <= r.2 < r.3 <= r.1 - 2,
        r.1 <= s.len(),
        is_pair_at(s, r.0, '{'),
        is_pair_at(s, r.1 - 2, '}'),
        variables_of(s)[i].0 == byte_offset(s, r.0),
        variables_of(s)[i].1 == byte_offset(s, r.1),
        variables_of(s)[i].2 == s.subrange(r.2, r.3),
        !is_white_space(s[r.2]),
        !is_white_space(s[r.3 - 1]),
        forall|k: int| r.0 + 2 <= k < r.2 ==> is_white_space(#[trigger] s[k]),
        forall|k: int| r.3 <= k < r.1 - 2 ==> is_white_space(#[trigger] s[k]),
{
    let (cs, ce) = lemma_variables_sound(s, i);
    let inner = s.subrange(cs + 2, ce - 2);
    let (a, b) = lemma_trim_shape(inner);
    assert(inner.subrange(a, b) =~= s.subrange(cs + 2 + a, cs + 2 + b));
    assert(s[cs + 2 + a] == inner[a]);
    assert(s[cs + 2 + b - 1] == inner[b - 1]);
    assert forall|k: int| cs + 2 <= k < cs + 2 + a implies is_white_space(#[trigger] s[k]) by {
        assert(s[k] == inner[k - cs - 2]);
    }
    assert forall|k: int| cs + 2 + b <= k < ce - 2 implies is_white_space(#[trigger] s[k]) by {
        assert(s[k] == inner[k - cs - 2]);
    }
    (cs, ce, cs + 2 + a, cs + 2 + b)
}

/// Law (completeness): every variable of the text is found; in particular
/// every `{{w}}` whose `w` holds no brace and is not blank.
pub proof fn lemma_variables_complete(s: Seq<char>, cs: int, ce: int)
    requires
        is_variable(s, cs, ce),
    ensures
        variables_of(s).contains(variable_view(s, cs, ce)),
{
    lemma_scan_variables_complete(s, 0, cs, ce);
}

/// A `{{w}}` whose `w` holds no brace and is not blank is a variable.
pub proof fn lemma_brace_free_is_variable(s: Seq<char>, a: int, b: int)
    requires
        0 <= a,
        a + 2 <= b,
        is_pair_at(s, a, '{'),
        is_pair_at(s, b, '}'),
        forall|i: int| a + 2 <= i < b ==> s[i] != '{' && s[i] != '}',
        trim(s.subrange(a + 2, b)).len() > 0,
    ensures
        is_variable(s, a, b + 2),
{
    assert forall|j: int| a < j < b implies !is_pair_at(s, j, '{') && !is_pair_at(s, j, '}') by {
        if j == a + 1 {
            assert(s[a + 1] == '{');
            if j + 1 < b {
                assert(s[j + 1] != '{');
            } else {
                assert(s[b] == '}');
            }
        } else if j + 1 == b {
            assert(s[j] != '{' && s[j] != '}');
        }
    }
}

/// No brace stands in `s`.
pub open spec fn brace_free(s: Seq<char>) -> bool {
    forall|i: int| 0 <= i < s.len() ==> s[i] != '{' && s[i] != '}'
}

/// `vs` with every byte range moved right by `d`, names unchanged.
pub open spec fn shifted(vs: Seq<(nat, nat, Seq<char>)>, d: nat) -> Seq<(nat, nat, Seq<char>)> {
    vs.map_values(|v: (nat, nat, Seq<char>)| ((v.0 + d) as nat, (v.1 + d) as nat, v.2))
}

/// The pair found from `from` is the first pair at or after it.
proof fn lemma_pair_from_is(s: Seq<char>, from: int, k: int, c: char)
    requires
        0 <= from <= k,
        is_pair_at(s, k, c),
        forall|j: int| from <= j < k ==> !is_pair_at(s, j, c),
    ensures
        pair_from(s, from, c) == Some(k),
    decreases k - from,
{
    if from < k {
        lemma_pair_from_is(s, from + 1, k, c);
    }
}

/// With brace-free text around `t`, pairs of braces stand at the same
/// places of `t`, moved by the length of the text before it.
proof fn lemma_pair_at_shift(p: Seq<char>, t: Seq<char>, q: Seq<char>, j: int, c: char)
    requires
        brace_free(p),
        brace_free(q),
        c == '{' || c == '}',
        -p.len() <= j,
    ensures
        is_pair_at(p + t + q, p.len() + j, c) == is_pair_at(t, j, c),
{
    let big = p + t + q;
    let l = p.len() as int;
    if j < 0 {
        assert(big[l + j] == p[l + j]);
    } else if j + 1 < t.len() {
        assert(big[l + j] == t[j]);
        assert(big[l + j + 1] == t[j + 1]);
    } else if j < t.len() {
        if l + j + 1 < big.len() {
            assert(big[l + j + 1] == q[0]);
        }
    } else if l + j < big.len() {
        assert(big[l + j] == q[j - t.len()]);
    }
}

/// Searching `p + t + q` from a position of `t` finds what searching `t`
/// finds, moved by the length of `p`.
proof fn lemma_pair_from_shift(p: Seq<char>, t: Seq<char>, q: Seq<char>, from: int, c: char)
    requires
        brace_free(p),
        brace_free(q),
        c == '{' || c == '}',
        -p.len() <= from,
    ensures
        pair_from(p + t + q, p.len() + from, c) == match pair_from(t, if from < 0 { 0 } else { from }, c) {
            Some(i) => Some(i + p.len()),
            None => None,
        },
{
    let big = p + t + q;
    let l = p.len() as int;
    let f0 = if from < 0 {
        0
    } else {
        from
    };
    lemma_pair_from_bounds(t, f0, c);
    match pair_from(t, f0, c) {
        Some(i) => {
            lemma_pair_at_shift(p, t, q, i, c);
            assert forall|j: int| l + from <= j < l + i implies !is_pair_at(big, j, c) by {
                lemma_pair_at_shift(p, t, q, j - l, c);
            }
            lemma_pair_from_is(big, l + from, l + i, c);
        },
        None => {
            lemma_pair_from_bounds(big, l + from, c);
            if let Some(k) = pair_from(big, l + from, c) {
                lemma_pair_at_shift(p, t, q, k - l, c);
            }
        },
    }
}

/// The last opener before a position moves with the text.
proof fn lemma_last_open_within_shift(p: Seq<char>, t: Seq<char>, q: Seq<char>, lo: int, i: int)
    requires
        brace_free(p),
        brace_free(q),
        0 <= lo,
    ensures
        last_open_within(p + t + q, p.len() + lo, p.len() + i) == p.len() + last_open_within(t, lo, i),
    decreases i - lo,
{
    if i > lo {
        lemma_pair_at_shift(p, t, q, i, '{');
        lemma_last_open_within_shift(p, t, q, lo, i - 1);
    }
}

/// Byte offsets in `t` move by the encoded length of `p`.
proof fn lemma_byte_offset_shift(p: Seq<char>, t: Seq<char>, q: Seq<char>, k: int)
    requires
        0 <= k <= t.len(),
    ensures
        byte_offset(p + t + q, p.len() + k) == encode_utf8(p).len() + byte_offset(t, k),
{
    assert((p + t + q).take(p.len() + k) =~= p + t.take(k));
    lemma_encode_concat(p, t.take(k));
}

/// Scanning `p + t + q` from a position of `t` finds what scanning `t`
/// finds, moved by the encoded length of `p`.
proof fn lemma_scan_variables_shift(p: Seq<char>, t: Seq<char>, q: Seq<char>, cursor: int)
    requires
        brace_free(p),
        brace_free(q),
        0 <= cursor <= t.len(),
    ensures
        scan_variables(p + t + q, p.len() + cursor) == shifted(
            scan_variables(t, cursor),
            encode_utf8(p).len(),
        ),
    decreases t.len() - cursor,
{
    let big = p + t + q;
    let l = p.len() as int;
    let d = encode_utf8(p).len();
    lemma_pair_from_shift(p, t, q, cursor, '{');
    lemma_pair_from_bounds(t, cursor, '{');
    match pair_from(t, cursor, '{') {
        None => {
            assert(shifted(scan_variables(t, cursor), d) =~= Seq::<(nat, nat, Seq<char>)>::empty());
        },
        Some(first) => {
            lemma_pair_from_shift(p, t, q, first + 2, '}');
            lemma_pair_from_bounds(t, first + 2, '}');
            match pair_from(t, first + 2, '}') {
                None => {
                    assert(shifted(scan_variables(t, cursor), d) =~= Seq::<
                        (nat, nat, Seq<char>),
                    >::empty());
                },
                Some(close) => {
                    let start = last_open_within(t, first, close - 2);
                    let end = close + 2;
                    lemma_last_open_within_bounds(t, first, close - 2);
                    lemma_last_open_within_shift(p, t, q, first, close - 2);
                    lemma_byte_offset_shift(p, t, q, start);
                    lemma_byte_offset_shift(p, t, q, end);
                    assert(big.subrange(l + start + 2, l + close) =~= t.subrange(start + 2, close));
                    lemma_scan_variables_shift(p, t, q, end);
                    let rest = scan_variables(t, end);
                    let name = trim(t.subrange(start + 2, close));
                    if name.len() == 0 {
                        assert(scan_variables(t, cursor) == rest);
                    } else {
                        let v = (byte_offset(t, start), byte_offset(t, end), name);
                        assert(scan_variables(t, cursor) == seq![v] + rest);
                        assert(shifted(seq![v] + rest, d) =~= seq![
                            (byte_offset(big, l + start), byte_offset(big, l + end), name)
                        ] + shifted(rest, d));
                    }
                },
            }
        },
    }
}

/// Law: brace-free text before and after a text does not change which
/// variables `spans` finds there, only moves their byte ranges right by the
/// encoded length of the text before; the names stay as they are.
pub proof fn lemma_variables_shift(p: Seq<char>, t: Seq<char>, q: Seq<char>)
    requires
        brace_free(p),
        brace_free(q),
    ensures
        variables_of(p + t + q) == shifted(variables_of(t), encode_utf8(p).len()),
{
    let big = p + t + q;
    let l = p.len() as int;
    lemma_pair_from_shift(p, t, q, -l, '{');
    lemma_pair_from_shift(p, t, q, 0, '{');
    assert(scan_variables(big, 0) == scan_variables(big, l));
    lemma_scan_variables_shift(p, t, q, 0);
}

/// The first position at or after `from` where two characters `c` stand.
fn find_pair(chars: &Vec<char>, from: usize, c: char) -> (r: Option<usize>)
    requires
        from <= chars.len(),
    ensures
        r matches Some(i) ==> pair_from(chars@, from as int, c) == Some(i as int),
        r is None ==> pair_from(chars@, from as int, c) is None,
{
    let n = chars.len();
    let mut i = from;
    while n - i >= 2
        invariant
            from <= i <= n,
            n == chars.len(),
            pair_from(chars@, from as int, c) == pair_from(chars@, i as int, c),
        decreases n - i,
    {
        if chars[i] == c && chars[i + 1] == c {
            return Some(i);
        }
        i = i + 1;
    }
    None
}

/// The last position `j` with `lo <= j <= i` where `{{` stands, or `lo`.
fn rfind_open(chars: &Vec<char>, lo: usize, i: usize) -> (r: usize)
    requires
        lo <= i,
        i + 1 < chars.len(),
    ensures
        r == last_open_within(chars@, lo as int, i as int),
{
    let mut j = i;
    while j > lo
        invariant
            lo <= j <= i,
            i + 1 < chars.len(),
            last_open_within(chars@, lo as int, i as int) == last_open_within(
                chars@,
                lo as int,
                j as int,
            ),
        decreases j - lo,
    {
        if chars[j] == '{' && chars[j + 1] == '{' {
            return j;
        }
        j = j - 1;
    }
    lo
}

/// Finds the `{{name}}` variables of `text`, in order of appearance.
///
/// Each span covers the whole `{{ ... }}` in bytes of `text` and carries the
/// name between the braces with surrounding white space removed. An opener
/// that is followed by another opener before its closer is dropped in
/// favour of the inner one, so `{{a{{b}}` yields only `b`; empty names are
/// skipped; an opener without a closer ends the scan.
pub fn spans(text: &str) -> (res: Vec<Span>)
    ensures
        res.len() == variables_of(text@).len(),
        forall|i: int| 0 <= i < res.len() ==> #[trigger] res[i]@ == variables_of(text@)[i],
{
    let ghost s = text@;
    let chars = chars_of(text);
    let bytes = text.as_bytes();
    let _byte_len = bytes.len();
    proof {
        assert(bytes@.len() == encode_utf8(s).len());
        assert(chars@ == s);
    }
    let offs = byte_offsets(&chars);
    let n = chars.len();
    let mut out: Vec<Span> = Vec::new();
    let mut cursor: usize = 0;
    loop
        invariant
            cursor <= n,
            n == chars.len(),
            chars@ == s,
            offs.len() == n + 1,
            forall|k: int| 0 <= k <= n ==> offs[k] == byte_offset(s, k),
            s == text@,
            variables_of(s) == out@.map_values(|sp: Span| sp@) + scan_variables(s, cursor as int),
        ensures
            variables_of(s) == out@.map_values(|sp: Span| sp@),
        decreases n - cursor,
    {
        let ghost before = out@.map_values(|sp: Span| sp@);
        let first = match find_pair(&chars, cursor, '{') {
            Some(f) => f,
            None => {
                assert(before + scan_variables(s, cursor as int) =~= before);
                break ;
            },
        };
        proof {
            lemma_pair_from_bounds(s, cursor as int, '{');
        }
        let close = match find_pair(&chars, first + 2, '}') {
            Some(c) => c,
            None => {
                assert(before + scan_variables(s, cursor as int) =~= before);
                break ;
            },
        };
        proof {
            lemma_pair_from_bounds(s, first + 2, '}');
            lemma_last_open_within_bounds(s, first as int, close - 2);
        }
        let start = rfind_open(&chars, first, close - 2);
        let end = close + 2;
        let (lo, hi) = trimmed_bounds(&chars, start + 2, close);
        if lo < hi {
            let name = substring(text, offs[lo], offs[hi], Ghost(lo as int), Ghost(hi as int)).to_owned();
            let sp = Span { range: offs[start]..offs[end], name };
            out.push(sp);
            proof {
                assert(out@.map_values(|sp: Span| sp@) =~= before.push(sp@));
                assert(sp@ == (byte_offset(s, start as int), byte_offset(s, end as int), trim(s.subrange(start + 2, close as int))));
            }
        } else {
            assert(out@.map_values(|sp: Span| sp@) =~= before);
        }
        cursor = end;
    }
    assert forall|i: int| 0 <= i < out.len() implies #[trigger] out[i]@ == variables_of(s)[i] by {
        assert(out@.map_values(|sp: Span| sp@)[i] == out[i]@);
    }
    out
}

/// The variables of `text` as highlight spans, each carrying its name as
/// payload.
pub fn highlight_spans(text: &str) -> (res: Vec<HighlightSpan<String>>)
    ensures
        res.len() == variables_of(text@).len(),
        forall|i: int|
            0 <= i < res.len() ==> {
                &&& (#[trigger] res[i]).range.start == variables_of(text@)[i].0
                &&& res[i].range.end == variables_of(text@)[i].1
                &&& res[i].payload@ == variables_of(text@)[i].2
            },
{
    let found = spans(text);
    let n = found.len();
    let mut out: Vec<HighlightSpan<String>> = Vec::new();
    for i in 0..n
        invariant
            n == found.len(),
            found.len() == variables_of(text@).len(),
            forall|k: int| 0 <= k < found.len() ==> #[trigger] found[k]@ == variables_of(text@)[k],
            out.len() == i,
            forall|k: int|
                0 <= k < i ==> {
                    &&& (#[trigger] out[k]).range.start == variables_of(text@)[k].0
                    &&& out[k].range.end == variables_of(text@)[k].1
                    &&& out[k].payload@ == variables_of(text@)[k].2
                },
    {
        let sp = &found[i];
        assert(sp@ == variables_of(text@)[i as int]);
        out.push(HighlightSpan { range: sp.range.start..sp.range.end, payload: sp.name.clone() });
    }
    out
}

} // verus!
