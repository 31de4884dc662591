//! Character-level views of UTF-8 text: byte widths, byte offsets of
//! character positions, Unicode white space and trimming.
use vstd::prelude::*;
use vstd::string::StringSliceAdditionalSpecFns;
use vstd::utf8::*;

verus! {

/// Number of bytes in the UTF-8 encoding of `c`.
pub open spec fn char_width(c: char) -> nat {
    encode_scalar(c as u32).len()
}

/// Byte offset, in the UTF-8 encoding of `s`, of the character at position `k`.
pub open spec fn byte_offset(s: Seq<char>, k: int) -> nat {
    encode_utf8(s.take(k)).len()
}

/// The Unicode `White_Space` property, which `char::is_whitespace` and
/// `str::trim` go by.
pub open spec fn is_white_space(c: char) -> bool {
    ||| ('\u{9}' <= c && c <= '\u{d}')
    ||| c == ' '
    ||| c == '\u{85}'
    ||| c == '\u{a0}'
    ||| c == '\u{1680}'
    ||| ('\u{2000}' <= c && c <= '\u{200a}')
    ||| c == '\u{2028}'
    ||| c == '\u{2029}'
    ||| c == '\u{202f}'
    ||| c == '\u{205f}'
    ||| c == '\u{3000}'
}

/// `s` without its leading white space.
pub open spec fn trim_start(s: Seq<char>) -> Seq<char>
    decreases s.len(),
{
    if s.len() > 0 && is_white_space(s[0]) {
        trim_start(s.drop_first())
    } else {
        s
    }
}

/// `s` without its trailing white space.
pub open spec fn trim_end(s: Seq<char>) -> Seq<char>
    decreases s.len(),
{
    if s.len() > 0 && is_white_space(s.last()) {
        trim_end(s.drop_last())
    } else {
        s
    }
}

/// `s` without leading and trailing white space, as `str::trim` returns it.
pub open spec fn trim(s: Seq<char>) -> Seq<char> {
    trim_end(trim_start(s))
}

/// `trim_start` drops exactly the leading white space: a prefix of white
/// space characters, after which comes a character that is not white space
/// or the end.
proof fn lemma_trim_start_shape(s: Seq<char>) -> (k: int)
    ensures
        0 <= k <= s.len(),
        trim_start(s) == s.skip(k),
        forall|i: int| 0 <= i < k ==> is_white_space(#[trigger] s[i]),
        k < s.len() ==> !is_white_space(s[k]),
    decreases s.len(),
{
    if s.len() > 0 && is_white_space(s[0]) {
        let k1 = lemma_trim_start_shape(s.drop_first());
        assert(s.drop_first().skip(k1) =~= s.skip(k1 + 1));
        assert forall|i: int| 0 <= i < k1 + 1 implies is_white_space(#[trigger] s[i]) by {
            if i > 0 {
                assert(s[i] == s.drop_first()[i - 1]);
            }
        }
        assert(k1 + 1 < s.len() ==> s[k1 + 1] == s.drop_first()[k1]);
        k1 + 1
    } else {
        assert(s.skip(0) =~= s);
        0
    }
}

/// `trim_end` drops exactly the trailing white space.
proof fn lemma_trim_end_shape(s: Seq<char>) -> (m: int)
    ensures
        0 <= m <= s.len(),
        trim_end(s) == s.take(m),
        forall|i: int| m <= i < s.len() ==> is_white_space(#[trigger] s[i]),
        m > 0 ==> !is_white_space(s[m - 1]),
    decreases s.len(),
{
    if s.len() > 0 && is_white_space(s.last()) {
        let m1 = lemma_trim_end_shape(s.drop_last());
        assert(s.drop_last().take(m1) =~= s.take(m1));
        assert forall|i: int| m1 <= i < s.len() implies is_white_space(#[trigger] s[i]) by {
            if i < s.len() - 1 {
                assert(s[i] == s.drop_last()[i]);
            }
        }
        assert(m1 > 0 ==> s[m1 - 1] == s.drop_last()[m1 - 1]);
        m1
    } else {
        assert(s.take(s.len() as int) =~= s);
        s.len() as int
    }
}

/// Law: `trim(s)` is `s` with all leading and all trailing white space
/// removed, as `str::trim` is defined: it is the part `s[lo..hi]`, every
/// character outside it is white space, and when it is not empty neither
/// its first nor its last character is white space. (When it is empty,
/// every character of `s` is white space.)
pub proof fn lemma_trim_shape(s: Seq<char>) -> (r: (int, int))
    ensures
        0 <= r.0 <= r.1 <= s.len(),
        trim(s) == s.subrange(r.0, r.1),
        forall|i: int| 0 <= i < r.0 ==> is_white_space(#[trigger] s[i]),
        forall|i: int| r.1 <= i < s.len() ==> is_white_space(#[trigger] s[i]),
        r.0 < r.1 ==> !is_white_space(s[r.0]) && !is_white_space(s[r.1 - 1]),
{
    let k = lemma_trim_start_shape(s);
    let t = s.skip(k);
    let m = lemma_trim_end_shape(t);
    assert(t.take(m) =~= s.subrange(k, k + m));
    assert forall|i: int| k + m <= i < s.len() implies is_white_space(#[trigger] s[i]) by {
        assert(s[i] == t[i - k]);
    }
    if m > 0 {
        assert(s[k] == t[0]);
        assert(s[k + m - 1] == t[m - 1]);
        if m == t.len() {
        }
    }
    (k, k + m)
}

/// The encoding of a concatenation is the concatenation of the encodings.
pub proof fn lemma_encode_concat(a: Seq<char>, b: Seq<char>)
    ensures
        encode_utf8(a + b) == encode_utf8(a) + encode_utf8(b),
    decreases a.len(),
{
    if a.len() == 0 {
        assert(a + b =~= b);
        assert(encode_utf8(a) + encode_utf8(b) =~= encode_utf8(b));
    } else {
        lemma_encode_concat(a.drop_first(), b);
        assert((a + b).drop_first() =~= a.drop_first() + b);
        assert((a + b)[0] == a[0]);
        assert(encode_utf8(a + b) =~= encode_utf8(a) + encode_utf8(b));
    }
}

/// The encoding of a single character.
pub proof fn lemma_encode_single(c: char)
    ensures
        encode_utf8(seq![c]) == encode_scalar(c as u32),
{
    assert(seq![c].drop_first() =~= Seq::<char>::empty());
    assert(encode_utf8(Seq::<char>::empty()) =~= Seq::<u8>::empty());
    assert(seq![c][0] == c);
    assert(encode_utf8(seq![c]) =~= encode_scalar(c as u32) + encode_utf8(Seq::<char>::empty()));
}

/// Encoding is injective: equal encodings come from equal texts.
pub proof fn lemma_encode_injective(a: Seq<char>, b: Seq<char>)
    requires
        encode_utf8(a) == encode_utf8(b),
    ensures
        a == b,
{
    encode_utf8_decode_utf8(a);
    encode_utf8_decode_utf8(b);
}

/// Stepping over one character advances the byte offset by its width.
pub proof fn lemma_byte_offset_step(s: Seq<char>, k: int)
    requires
        0 <= k < s.len(),
    ensures
        byte_offset(s, k + 1) == byte_offset(s, k) + char_width(s[k]),
{
    assert(s.take(k + 1) =~= s.take(k) + seq![s[k]]);
    lemma_encode_concat(s.take(k), seq![s[k]]);
    lemma_encode_single(s[k]);
}

/// Byte offsets split the encoding: what lies before `k` and what lies after.
pub proof fn lemma_byte_offset_split(s: Seq<char>, k: int)
    requires
        0 <= k <= s.len(),
    ensures
        encode_utf8(s) == encode_utf8(s.take(k)) + encode_utf8(s.skip(k)),
        byte_offset(s, k) <= encode_utf8(s).len(),
        byte_offset(s, s.len() as int) == encode_utf8(s).len(),
{
    assert(s =~= s.take(k) + s.skip(k));
    lemma_encode_concat(s.take(k), s.skip(k));
    assert(s.take(s.len() as int) =~= s);
}

/// Every character is encoded in one to four bytes.
pub proof fn lemma_char_width_bounds(c: char)
    ensures
        1 <= char_width(c) <= 4,
{
    char_is_scalar(c);
}

/// Byte offsets grow strictly with the character position.
pub proof fn lemma_byte_offset_strictly_increasing(s: Seq<char>, j: int, k: int)
    requires
        0 <= j < k <= s.len(),
    ensures
        byte_offset(s, j) < byte_offset(s, k),
    decreases k - j,
{
    lemma_byte_offset_step(s, k - 1);
    lemma_char_width_bounds(s[k - 1]);
    if j < k - 1 {
        lemma_byte_offset_strictly_increasing(s, j, k - 1);
    }
}

/// The byte offset of every character position is a character boundary of
/// the encoding.
pub proof fn lemma_byte_offset_is_char_boundary(s: Seq<char>, k: int)
    requires
        0 <= k <= s.len(),
    ensures
        is_char_boundary(encode_utf8(s), byte_offset(s, k) as int),
    decreases s.len(),
{
    encode_utf8_valid_utf8(s);
    if k == 0 {
        assert(s.take(0) =~= Seq::<char>::empty());
    } else {
        let bytes = encode_utf8(s);
        let t = s.drop_first();
        encode_utf8_first_scalar(s);
        assert(pop_first_scalar(bytes) =~= encode_utf8(t));
        lemma_byte_offset_is_char_boundary(t, k - 1);
        assert(s.take(k) =~= seq![s[0]] + t.take(k - 1));
        lemma_encode_concat(seq![s[0]], t.take(k - 1));
        lemma_encode_single(s[0]);
        lemma_byte_offset_split(s, k);
        lemma_char_width_bounds(s[0]);
        encode_utf8_valid_utf8(t);
    }
}

/// Number of bytes in the UTF-8 encoding of `c`.
pub fn utf8_width(c: char) -> (w: usize)
    ensures
        w == char_width(c),
        1 <= w <= 4,
{
    proof {
        char_is_scalar(c);
    }
    if c <= '\u{7f}' {
        1
    } else if c <= '\u{7ff}' {
        2
    } else if c <= '\u{ffff}' {
        3
    } else {
        4
    }
}

/// Whether `c` has the Unicode `White_Space` property.
pub fn is_whitespace(c: char) -> (b: bool)
    ensures
        b == is_white_space(c),
{
    ('\u{9}' <= c && c <= '\u{d}') || c == ' ' || c == '\u{85}' || c == '\u{a0}' || c
        == '\u{1680}' || ('\u{2000}' <= c && c <= '\u{200a}') || c == '\u{2028}' || c
        == '\u{2029}' || c == '\u{202f}' || c == '\u{205f}' || c == '\u{3000}'
}

/// Bounds `(lo, hi)` of `chars[a..b]` without its leading and trailing
/// white space.
pub(crate) fn trimmed_bounds(chars: &Vec<char>, a: usize, b: usize) -> (r: (usize, usize))
    requires
        a <= b <= chars.len(),
    ensures
        a <= r.0 <= r.1 <= b,
        chars@.subrange(r.0 as int, r.1 as int) == trim(chars@.subrange(a as int, b as int)),
        forall|k: int| a <= k < r.0 ==> is_white_space(#[trigger] chars@[k]),
        forall|k: int| r.1 <= k < b ==> is_white_space(#[trigger] chars@[k]),
        r.0 < r.1 ==> !is_white_space(chars@[r.0 as int]) && !is_white_space(chars@[r.1 - 1]),
{
    let ghost s = chars@;
    let mut lo = a;
    while lo < b && is_whitespace(chars[lo])
        invariant
            a <= lo <= b <= chars.len(),
            s == chars@,
            forall|k: int| a <= k < lo ==> is_white_space(#[trigger] chars@[k]),
            trim_start(s.subrange(a as int, b as int)) == trim_start(s.subrange(lo as int, b as int)),
        decreases b - lo,
    {
        assert(s.subrange(lo as int, b as int).drop_first() =~= s.subrange(lo + 1, b as int));
        lo = lo + 1;
    }
    assert(trim_start(s.subrange(lo as int, b as int)) == s.subrange(lo as int, b as int));
    let mut hi = b;
    while hi > lo && is_whitespace(chars[hi - 1])
        invariant
            a <= lo <= hi <= b <= chars.len(),
            s == chars@,
            lo < b ==> !is_white_space(chars@[lo as int]),
            forall|k: int| hi <= k < b ==> is_white_space(#[trigger] chars@[k]),
            trim_end(s.subrange(lo as int, b as int)) == trim_end(s.subrange(lo as int, hi as int)),
        decreases hi - lo,
    {
        assert(s.subrange(lo as int, hi as int).drop_last() =~= s.subrange(lo as int, hi - 1));
        hi = hi - 1;
    }
    assert(trim_end(s.subrange(lo as int, hi as int)) == s.subrange(lo as int, hi as int));
    (lo, hi)
}

/// The characters of `text`, in order.
pub(crate) fn chars_of(text: &str) -> (out: Vec<char>)
    ensures
        out@ == text@,
{
    broadcast use vstd::string::axiom_spec_iter;

    let mut out: Vec<char> = Vec::new();
    for c in it: text.chars()
        invariant
            it.seq() == text@,
            out@ == text@.take(it.index()),
    {
        out.push(c);
        assert(text@.take(it.index() + 1) =~= text@.take(it.index()).push(c));
    }
    assert(text@.take(text@.len() as int) =~= text@);
    out
}

/// Byte offsets of every character position of `chars`, the end included.
pub(crate) fn byte_offsets(chars: &Vec<char>) -> (offs: Vec<usize>)
    requires
        encode_utf8(chars@).len() <= usize::MAX,
    ensures
        offs.len() == chars.len() + 1,
        forall|k: int| 0 <= k <= chars.len() ==> offs[k] == byte_offset(chars@, k),
{
    let mut offs: Vec<usize> = Vec::new();
    let mut acc: usize = 0;
    offs.push(0);
    proof {
        assert(chars@.take(0) =~= Seq::<char>::empty());
    }
    let n = chars.len();
    for i in 0..n
        invariant
            n == chars.len(),
            encode_utf8(chars@).len() <= usize::MAX,
            offs.len() == i + 1,
            acc == byte_offset(chars@, i as int),
            forall|k: int| 0 <= k <= i ==> offs[k] == byte_offset(chars@, k),
    {
        proof {
            lemma_byte_offset_step(chars@, i as int);
            lemma_byte_offset_split(chars@, i + 1);
        }
        acc = acc + utf8_width(chars[i]);
        offs.push(acc);
    }
    offs
}

/// The part of `text` between the character positions `clo` and `chi`,
/// found at the byte offsets `lo` and `hi`.
pub(crate) fn substring<'a>(
    text: &'a str,
    lo: usize,
    hi: usize,
    Ghost(clo): Ghost<int>,
    Ghost(chi): Ghost<int>,
) -> (sub: &'a str)
    requires
        0 <= clo <= chi <= text@.len(),
        lo == byte_offset(text@, clo),
        hi == byte_offset(text@, chi),
    ensures
        sub@ == text@.subrange(clo, chi),
{
    let ghost s = text@;
    proof {
        lemma_byte_offset_is_char_boundary(s, clo);
        lemma_byte_offset_split(s, clo);
        lemma_byte_offset_split(s, chi);
    }
    let (_, tail) = text.split_at(lo);
    proof {
        let rest = s.skip(clo);
        assert(tail.spec_bytes() =~= encode_utf8(rest));
        lemma_encode_injective(tail@, rest);
        assert(s.take(chi) =~= s.take(clo) + rest.take(chi - clo));
        lemma_encode_concat(s.take(clo), rest.take(chi - clo));
        lemma_byte_offset_is_char_boundary(rest, chi - clo);
        lemma_byte_offset_split(rest, chi - clo);
    }
    let (sub, _) = tail.split_at(hi - lo);
    proof {
        let rest = s.skip(clo);
        assert(sub.spec_bytes() =~= encode_utf8(rest.take(chi - clo)));
        lemma_encode_injective(sub@, rest.take(chi - clo));
        assert(rest.take(chi - clo) =~= s.subrange(clo, chi));
    }
    sub
}

} // verus!
