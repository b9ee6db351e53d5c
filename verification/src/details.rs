//! `<details>` segment splitting.
//!
//! The markdown parser does not understand `<details>/<summary>`, so the
//! source is pre-split into segments: plain markdown, and `<details>` blocks
//! whose bodies are parsed again as markdown. The scan is fence-aware:
//! `<details>` inside a fenced code block is not a tag.

use crate::text::{
    chars_of, char_is_ws, find_char, find_from, is_ws, lower, push_char, push_chars, skip_ws_from,
    string_of, sub_vec, to_lower, trim, trim_bounds, words_from, lower_seq, has_prefix, skip_ws, find_ws,
    lemma_skip_ws_from_bounds, lemma_ws_from_bounds, ws_from, byte_offset,
};
use vstd::utf8::encode_utf8;
use vstd::prelude::*;

verus! {

/// Whether `needle` occurs at `i` in `s`, ignoring ASCII case.
pub open spec fn ci_match(s: Seq<char>, i: int, needle: Seq<char>) -> bool {
    &&& 0 <= i
    &&& i + needle.len() <= s.len()
    &&& forall|k: int| 0 <= k < needle.len() ==> lower(#[trigger] s[i + k]) == lower(needle[k])
}

/// First `i` in `[i, b - |needle|]` where `needle` occurs in `s[..b]` ignoring
/// ASCII case, or `b` when there is none.
pub open spec fn find_ci(s: Seq<char>, i: int, b: int, needle: Seq<char>) -> int
    decreases b - i,
{
    if i < 0 || i + needle.len() > b || b > s.len() {
        b
    } else if ci_match(s, i, needle) {
        i
    } else {
        find_ci(s, i + 1, b, needle)
    }
}

pub proof fn lemma_find_ci(s: Seq<char>, i: int, b: int, needle: Seq<char>)
    requires
        0 <= i <= b <= s.len(),
        needle.len() > 0,
    ensures
        i <= find_ci(s, i, b, needle) <= b,
        find_ci(s, i, b, needle) < b ==> ci_match(s, find_ci(s, i, b, needle), needle)
            && find_ci(s, i, b, needle) + needle.len() <= b,
    decreases b - i,
{
    if i + needle.len() <= b && !ci_match(s, i, needle) {
        lemma_find_ci(s, i + 1, b, needle);
    }
}

/// Executable [`find_ci`].
pub fn find_ci_at(v: &Vec<char>, i: usize, b: usize, needle: &Vec<char>) -> (r: usize)
    requires
        i <= b <= v.len(),
        needle.len() > 0,
    ensures
        r as int == find_ci(v@, i as int, b as int, needle@),
        i <= r <= b,
{
    let mut j = i;
    while needle.len() <= b - j
        invariant
            i <= j <= b <= v.len(),
            needle.len() > 0,
            find_ci(v@, i as int, b as int, needle@) == find_ci(v@, j as int, b as int, needle@),
        decreases b - j,
    {
        let mut k: usize = 0;
        let mut ok = true;
        while k < needle.len()
            invariant
                j + needle.len() <= b <= v.len(),
                k <= needle.len(),
                ok == (forall|m: int| 0 <= m < k ==> lower(#[trigger] v@[j + m]) == lower(needle@[m])),
            decreases needle.len() - k,
        {
            if to_lower(v[j + k]) != to_lower(needle[k]) {
                ok = false;
            }
            k = k + 1;
        }
        if ok {
            return j;
        }
        j = j + 1;
    }
    b
}

/// One line of the source: `(start, end)` ranges, the line ending (`\n` or
/// `\r\n`) excluded, as `str::lines` splits them; starting at `i`.
pub open spec fn lines_from(s: Seq<char>, i: int) -> Seq<(int, int)>
    decreases s.len() - i,
{
    if i < 0 || i >= s.len() {
        Seq::empty()
    } else {
        let k = find_from(s, '\n', i);
        proof {
            lemma_find_from_ge(s, '\n', i);
        }
        if k >= s.len() {
            seq![(i, s.len() as int)]
        } else {
            let e = if k > i && s[k - 1] == '\r' {
                k - 1
            } else {
                k
            };
            seq![(i, e)] + lines_from(s, k + 1)
        }
    }
}

pub proof fn lemma_find_from_ge(s: Seq<char>, c: char, i: int)
    requires
        0 <= i <= s.len(),
    ensures
        i <= find_from(s, c, i) <= s.len(),
        find_from(s, c, i) < s.len() ==> s[find_from(s, c, i)] == c,
    decreases s.len() - i,
{
    if i < s.len() && s[i] != c {
        lemma_find_from_ge(s, c, i + 1);
    }
}

/// The line ranges are ordered, separated by at least one character, and
/// within the text.
pub open spec fn ranges_ordered(s: Seq<char>, ls: Seq<(int, int)>, lo: int) -> bool {
    &&& forall|k: int| 0 <= k < ls.len() ==> lo <= (#[trigger] ls[k]).0 <= ls[k].1 <= s.len()
    &&& forall|k: int| 0 < k < ls.len() ==> (#[trigger] ls[k]).0 >= ls[k - 1].1 + 1
}

proof fn lemma_lines_ordered(s: Seq<char>, i: int)
    requires
        0 <= i <= s.len(),
    ensures
        ranges_ordered(s, lines_from(s, i), i),
    decreases s.len() - i,
{
    if i < s.len() {
        let k = find_from(s, '\n', i);
        lemma_find_from_ge(s, '\n', i);
        if k < s.len() {
            lemma_lines_ordered(s, k + 1);
            let e = if k > i && s[k - 1] == '\r' {
                k - 1
            } else {
                k
            };
            let ls = lines_from(s, i);
            let rest = lines_from(s, k + 1);
            assert(ls == seq![(i, e)] + rest);
            assert forall|m: int| 0 < m < ls.len() implies (#[trigger] ls[m]).0 >= ls[m - 1].1 + 1 by {
                if m == 1 {
                    assert(ls[m] == rest[0]);
                } else {
                    assert(ls[m] == rest[m - 1]);
                    assert(ls[m - 1] == rest[m - 2]);
                }
            }
        }
    }
}

/// The line ranges of `v`, as `str::lines` splits them.
pub fn line_ranges(v: &Vec<char>) -> (r: Vec<(usize, usize)>)
    ensures
        r@.len() == lines_from(v@, 0).len(),
        forall|k: int|
            0 <= k < r@.len() ==> (#[trigger] r@[k]).0 as int == lines_from(v@, 0)[k].0 && r@[k].1
                as int == lines_from(v@, 0)[k].1,
        ranges_ordered(v@, lines_from(v@, 0), 0),
{
    let ghost s = v@;
    let mut r: Vec<(usize, usize)> = Vec::new();
    let mut i: usize = 0;
    proof {
        lemma_lines_ordered(s, 0);
    }
    while i < v.len()
        invariant
            s == v@,
            i <= v.len(),
            r@.len() + lines_from(s, i as int).len() == lines_from(s, 0).len(),
            forall|k: int|
                0 <= k < r@.len() ==> (#[trigger] r@[k]).0 as int == lines_from(s, 0)[k].0
                    && r@[k].1 as int == lines_from(s, 0)[k].1,
            forall|k: int|
                0 <= k < lines_from(s, i as int).len() ==> #[trigger] lines_from(s, i as int)[k]
                    == lines_from(s, 0)[r@.len() + k],
        decreases v.len() - i,
    {
        let k = find_char(v, '\n', i, v.len());
        assert(v@.subrange(0, v.len() as int) =~= s);
        proof {
            lemma_find_from_ge(s, '\n', i as int);
        }
        let ghost here = lines_from(s, i as int);
        let ghost old_len = r@.len();
        assert(here.len() > 0);
        assert(here[0] == lines_from(s, 0)[old_len as int]);
        if k == v.len() {
            r.push((i, v.len()));
            assert(here.len() == 1);
            assert(lines_from(s, v.len() as int).len() == 0);
            i = v.len();
        } else {
            let e = if k > i && v[k - 1] == '\r' {
                k - 1
            } else {
                k
            };
            r.push((i, e));
            assert(here == seq![(i as int, e as int)] + lines_from(s, k + 1));
            assert forall|m: int| 0 <= m < lines_from(s, k + 1).len() implies #[trigger] lines_from(
                s,
                k + 1,
            )[m] == lines_from(s, 0)[r@.len() + m] by {
                assert(lines_from(s, k + 1)[m] == here[m + 1]);
            }
            i = k + 1;
        }
    }
    r
}


/// The tag prefix `<details`.
pub open spec fn open_tag() -> Seq<char> {
    seq!['<', 'd', 'e', 't', 'a', 'i', 'l', 's']
}

/// The tag prefix `</details`.
pub open spec fn close_tag() -> Seq<char> {
    seq!['<', '/', 'd', 'e', 't', 'a', 'i', 'l', 's']
}

/// End of the run of `c` starting at `i` within `s[..b]`.
pub open spec fn run_end(s: Seq<char>, c: char, i: int, b: int) -> int
    decreases b - i,
{
    if i < 0 || i >= b || b > s.len() || s[i] != c {
        i
    } else {
        run_end(s, c, i + 1, b)
    }
}

/// The fenced-code state after the line `s[a..b]`: a line whose first
/// non-whitespace characters are at least three backticks or tildes opens a
/// fence when none is open, and closes the open fence when it uses the same
/// character at least as many times.
pub open spec fn fence_after(s: Seq<char>, a: int, b: int, fence: Option<(char, usize)>) -> Option<
    (char, usize),
> {
    let p = skip_ws_from(s.subrange(0, b), a);
    if p >= b {
        fence
    } else {
        let c = s[p];
        if c != '`' && c != '~' {
            fence
        } else {
            let count = run_end(s, c, p, b) - p;
            if count < 3 {
                fence
            } else {
                match fence {
                    None => Some((c, count as usize)),
                    Some((fc, fl)) => if fc == c && count >= fl {
                        None
                    } else {
                        fence
                    },
                }
            }
        }
    }
}

/// Track fenced code block state so `<details>` inside fences is not a tag.
fn update_fence_state(v: &Vec<char>, a: usize, b: usize, fence: Option<(char, usize)>) -> (r: Option<
    (char, usize),
>)
    requires
        a <= b <= v.len(),
    ensures
        r == fence_after(v@, a as int, b as int, fence),
{
    let ghost t = v@.subrange(0, b as int);
    let mut p = a;
    while p < b && char_is_ws(v[p])
        invariant
            a <= p <= b <= v.len(),
            t == v@.subrange(0, b as int),
            skip_ws_from(t, a as int) == skip_ws_from(t, p as int),
        decreases b - p,
    {
        p = p + 1;
    }
    if p >= b {
        return fence;
    }
    let c = v[p];
    if c != '`' && c != '~' {
        return fence;
    }
    let mut q = p;
    while q < b && v[q] == c
        invariant
            p <= q <= b <= v.len(),
            run_end(v@, c, p as int, b as int) == run_end(v@, c, q as int, b as int),
        decreases b - q,
    {
        q = q + 1;
    }
    let count = q - p;
    if count < 3 {
        return fence;
    }
    match fence {
        None => Some((c, count)),
        Some((fc, fl)) => if fc == c && count >= fl {
            None
        } else {
            fence
        },
    }
}

/// Scan `s[idx..b]` tracking `<details>` / `</details>` depth: each opening
/// tag raises the depth; each closing tag lowers it, and the line is cut just
/// after the closing tag (its `>`, or the tag name when there is none) that
/// brings the depth to zero. Returns `(cut, depth)`; `cut == b` when the line
/// is not cut.
pub open spec fn split_line_from(s: Seq<char>, b: int, idx: int, depth: int) -> (int, int)
    decreases b - idx,
{
    if idx < 0 || idx >= b || b > s.len() {
        (b, depth)
    } else {
        let o = find_ci(s, idx, b, open_tag());
        let c = find_ci(s, idx, b, close_tag());
        proof {
            lemma_find_ci(s, idx, b, open_tag());
            lemma_find_ci(s, idx, b, close_tag());
        }
        if o >= b && c >= b {
            (b, depth)
        } else if o < b && (c >= b || o <= c) {
            split_line_from(s, b, o + 8, depth + 1)
        } else {
            let gt = find_from(s.subrange(0, b), '>', c);
            proof {
                lemma_find_from_ge(s.subrange(0, b), '>', c);
            }
            let close_end = if gt < b {
                gt + 1
            } else {
                c + 9
            };
            if depth - 1 <= 0 {
                (close_end, 0)
            } else {
                split_line_from(s, b, close_end, depth - 1)
            }
        }
    }
}

pub proof fn lemma_split_line_bounds(s: Seq<char>, b: int, idx: int, depth: int)
    requires
        0 <= idx <= b <= s.len(),
        depth >= 0,
    ensures
        idx <= split_line_from(s, b, idx, depth).0 <= b,
        split_line_from(s, b, idx, depth).0 < b ==> split_line_from(s, b, idx, depth).1 == 0,
        split_line_from(s, b, idx, depth).1 <= depth + (b - idx),
    decreases b - idx,
{
    if idx < b {
        let o = find_ci(s, idx, b, open_tag());
        let c = find_ci(s, idx, b, close_tag());
        lemma_find_ci(s, idx, b, open_tag());
        lemma_find_ci(s, idx, b, close_tag());
        if o >= b && c >= b {
        } else if o < b && (c >= b || o <= c) {
            lemma_split_line_bounds(s, b, o + 8, depth + 1);
        } else {
            let gt = find_from(s.subrange(0, b), '>', c);
            lemma_find_from_ge(s.subrange(0, b), '>', c);
            let close_end = if gt < b {
                gt + 1
            } else {
                c + 9
            };
            if depth - 1 > 0 {
                lemma_split_line_bounds(s, b, close_end, depth - 1);
            }
        }
    }
}

/// Split the line `v[idx..b]` tracking `<details>` depth (see [`split_line_from`]).
fn split_details_line(
    v: &Vec<char>,
    idx0: usize,
    b: usize,
    depth0: usize,
    open: &Vec<char>,
    close: &Vec<char>,
) -> (r: (usize, usize))
    requires
        idx0 <= b <= v.len(),
        depth0 * 8 <= idx0,
        open@ == open_tag(),
        close@ == close_tag(),
    ensures
        (r.0 as int, r.1 as int) == split_line_from(v@, b as int, idx0 as int, depth0 as int),
        idx0 <= r.0 <= b,
        r.1 * 8 <= b,
        r.0 < b ==> r.1 == 0,
{
    let mut idx = idx0;
    let mut depth = depth0;
    proof {
        lemma_split_line_bounds(v@, b as int, idx0 as int, depth0 as int);
    }
    while idx < b
        invariant
            idx0 <= idx <= b <= v.len(),
            open@ == open_tag(),
            close@ == close_tag(),
            depth * 8 <= idx,
            split_line_from(v@, b as int, idx0 as int, depth0 as int) == split_line_from(
                v@,
                b as int,
                idx as int,
                depth as int,
            ),
        decreases b - idx,
    {
        let o = find_ci_at(v, idx, b, open);
        let c = find_ci_at(v, idx, b, close);
        proof {
            lemma_find_ci(v@, idx as int, b as int, open_tag());
            lemma_find_ci(v@, idx as int, b as int, close_tag());
        }
        if o >= b && c >= b {
            return (b, depth);
        } else if o < b && (c >= b || o <= c) {
            depth = depth + 1;
            idx = o + 8;
        } else {
            let gt = find_char(v, '>', c, b);
            proof {
                lemma_find_from_ge(v@.subrange(0, b as int), '>', c as int);
            }
            let close_end = if gt < b {
                gt + 1
            } else {
                c + 9
            };
            if depth <= 1 {
                return (close_end, 0);
            }
            depth = depth - 1;
            idx = close_end;
        }
    }
    (b, depth)
}

/// `eq_ignore_ascii_case("open")` or `starts_with("open=")`.
pub open spec fn is_open_word(w: Seq<char>) -> bool {
    lower_seq(w) == seq!['o', 'p', 'e', 'n'] || has_prefix(w, seq!['o', 'p', 'e', 'n', '='])
}

/// Whether some word satisfies [`is_open_word`].
pub open spec fn any_open_word(ws: Seq<Seq<char>>) -> bool {
    exists|k: int| 0 <= k < ws.len() && is_open_word(#[trigger] ws[k])
}

/// A `<details ...>` tag in `s[a..b]` has the `open` attribute: some
/// whitespace-separated word before the first `>` is `open` (any case) or
/// starts with `open=`.
#[verifier::opaque]
pub open spec fn spec_has_open(s: Seq<char>, a: int, b: int) -> bool {
    let gt = find_from(s.subrange(0, b), '>', a);
    any_open_word(words_from(s.subrange(a, gt), 0))
}

fn is_open_word_at(t: &Vec<char>, a: usize, b: usize) -> (r: bool)
    requires
        a <= b <= t.len(),
    ensures
        r == is_open_word(t@.subrange(a as int, b as int)),
{
    let ghost w = t@.subrange(a as int, b as int);
    let mut lower_ok = b - a == 4;
    if lower_ok {
        lower_ok = to_lower(t[a]) == 'o' && to_lower(t[a + 1]) == 'p' && to_lower(t[a + 2]) == 'e'
            && to_lower(t[a + 3]) == 'n';
        assert(lower_ok == (lower_seq(w) =~= seq!['o', 'p', 'e', 'n']));
    } else {
        assert(lower_seq(w).len() != 4);
    }
    let prefix_ok = b - a >= 5 && t[a] == 'o' && t[a + 1] == 'p' && t[a + 2] == 'e' && t[a + 3]
        == 'n' && t[a + 4] == '=';
    if b - a >= 5 {
        assert(prefix_ok == (w.subrange(0, 5) =~= seq!['o', 'p', 'e', 'n', '=']));
    }
    lower_ok || prefix_ok
}

/// Check whether the `<details ...>` tag at `v[a..b]` contains `open`.
fn has_open_attribute_at(v: &Vec<char>, a: usize, b: usize) -> (r: bool)
    requires
        a <= b <= v.len(),
    ensures
        r == spec_has_open(v@, a as int, b as int),
{
    proof {
        reveal(spec_has_open);
    }
    let gt = find_char(v, '>', a, b);
    let t = sub_vec(v, a, gt);
    let n = t.len();
    let ghost ws0 = words_from(t@, 0);
    let mut i: usize = 0;
    while i < n
        invariant
            n == t.len(),
            ws0 == words_from(t@, 0),
            t@ == v@.subrange(a as int, gt as int),
            gt as int == find_from(v@.subrange(0, b as int), '>', a as int),
            i <= n,
            any_open_word(ws0) == any_open_word(words_from(t@, i as int)),
            any_open_word(ws0) == spec_has_open(v@, a as int, b as int),
        decreases n - i,
    {
        let a2 = skip_ws(&t, i);
        proof {
            lemma_skip_ws_from_bounds(t@, i as int);
        }
        if a2 >= n {
            assert(words_from(t@, i as int) =~= Seq::<Seq<char>>::empty());
            assert(!any_open_word(words_from(t@, i as int)));
            return false;
        }
        let b2 = find_ws(&t, a2);
        proof {
            lemma_ws_from_bounds(t@, a2 as int);
        }
        let ghost ws = words_from(t@, i as int);
        assert(ws == seq![t@.subrange(a2 as int, b2 as int)] + words_from(t@, b2 as int));
        if is_open_word_at(&t, a2, b2) {
            assert(is_open_word(ws[0]));
            assert(any_open_word(ws));
            return true;
        }
        assert(any_open_word(ws) == any_open_word(words_from(t@, b2 as int))) by {
            let rest = words_from(t@, b2 as int);
            if any_open_word(ws) {
                let k = choose|k: int| 0 <= k < ws.len() && is_open_word(#[trigger] ws[k]);
                assert(k > 0);
                assert(rest[k - 1] == ws[k]);
            }
            if any_open_word(rest) {
                let k = choose|k: int| 0 <= k < rest.len() && is_open_word(#[trigger] rest[k]);
                assert(ws[k + 1] == rest[k]);
            }
        }
        i = b2;
    }
    assert(words_from(t@, n as int) =~= Seq::<Seq<char>>::empty());
    assert(!any_open_word(words_from(t@, n as int)));
    false
}


/// `s[i..]` with HTML tags removed: characters between `<` and `>` (and the
/// brackets themselves) are dropped; `in_tag` tells whether `s[i]` is inside
/// a tag.
pub open spec fn strip_tags_from(s: Seq<char>, i: int, in_tag: bool) -> Seq<char>
    decreases s.len() - i,
{
    if i < 0 || i >= s.len() {
        Seq::empty()
    } else if s[i] == '<' {
        strip_tags_from(s, i + 1, true)
    } else if s[i] == '>' {
        strip_tags_from(s, i + 1, false)
    } else if !in_tag {
        seq![s[i]] + strip_tags_from(s, i + 1, in_tag)
    } else {
        strip_tags_from(s, i + 1, in_tag)
    }
}

/// The text of `s` with HTML tags removed.
pub open spec fn strip_tags(s: Seq<char>) -> Seq<char> {
    strip_tags_from(s, 0, false)
}

/// Strip HTML tags from `v[a..b]`, keeping only text content.
pub fn strip_tags_at(v: &Vec<char>, a: usize, b: usize) -> (r: String)
    requires
        a <= b <= v.len(),
    ensures
        r@ == strip_tags(v@.subrange(a as int, b as int)),
{
    let ghost s = v@.subrange(a as int, b as int);
    let mut r = String::new();
    let mut in_tag = false;
    let mut i = a;
    while i < b
        invariant
            a <= i <= b <= v.len(),
            s == v@.subrange(a as int, b as int),
            r@ + strip_tags_from(s, i - a, in_tag) == strip_tags(s),
        decreases b - i,
    {
        let c = v[i];
        let ghost before = r@;
        if c == '<' {
            in_tag = true;
        } else if c == '>' {
            in_tag = false;
        } else if !in_tag {
            push_char(&mut r, c);
            assert(r@ + strip_tags_from(s, i + 1 - a, in_tag) =~= before + (seq![c]
                + strip_tags_from(s, i + 1 - a, in_tag)));
        }
        i = i + 1;
    }
    assert(r@ + Seq::<char>::empty() =~= r@);
    r
}

/// Stripping tags leaves no `<` or `>`.
pub proof fn lemma_strip_tags_no_brackets(s: Seq<char>)
    ensures
        forall|k: int|
            0 <= k < strip_tags(s).len() ==> strip_tags(s)[k] != '<' && strip_tags(s)[k] != '>',
{
    lemma_strip_tags_from_no_brackets(s, 0, false);
}

proof fn lemma_strip_tags_from_no_brackets(s: Seq<char>, i: int, in_tag: bool)
    ensures
        forall|k: int|
            0 <= k < strip_tags_from(s, i, in_tag).len() ==> strip_tags_from(s, i, in_tag)[k] != '<'
                && strip_tags_from(s, i, in_tag)[k] != '>',
    decreases s.len() - i,
{
    if 0 <= i < s.len() {
        if s[i] == '<' {
            lemma_strip_tags_from_no_brackets(s, i + 1, true);
            assert(strip_tags_from(s, i, in_tag) == strip_tags_from(s, i + 1, true));
        } else if s[i] == '>' {
            lemma_strip_tags_from_no_brackets(s, i + 1, false);
            assert(strip_tags_from(s, i, in_tag) == strip_tags_from(s, i + 1, false));
        } else {
            lemma_strip_tags_from_no_brackets(s, i + 1, in_tag);
            if !in_tag {
                let r = strip_tags_from(s, i + 1, in_tag);
                assert(strip_tags_from(s, i, in_tag) == seq![s[i]] + r);
                assert forall|k: int| 0 <= k < (seq![s[i]] + r).len() implies (seq![s[i]] + r)[k]
                    != '<' && (seq![s[i]] + r)[k] != '>' by {
                    if k > 0 {
                        assert((seq![s[i]] + r)[k] == r[k - 1]);
                    }
                }
            } else {
                assert(strip_tags_from(s, i, in_tag) == strip_tags_from(s, i + 1, in_tag));
            }
        }
    }
}

/// Strip HTML tags from a string, keeping only text content.
pub fn strip_html_tags(input: &str) -> (r: String)
    ensures
        r@ == strip_tags(input@),
{
    let v = chars_of(input);
    assert(v@.subrange(0, v@.len() as int) =~= v@);
    strip_tags_at(&v, 0, v.len())
}

/// The tag prefix `<summary`.
pub open spec fn summary_open() -> Seq<char> {
    seq!['<', 's', 'u', 'm', 'm', 'a', 'r', 'y']
}

/// The tag prefix `</summary`.
pub open spec fn summary_close() -> Seq<char> {
    seq!['<', '/', 's', 'u', 'm', 'm', 'a', 'r', 'y']
}

/// The summary and body of the inner content of a `<details>` block: the
/// content is trimmed; when it holds `<summary ...>` and `</summary`, the
/// summary is the trimmed, tag-stripped text between them (`None` when
/// empty) and the body the trimmed text after the closing tag; otherwise
/// there is no summary and the body is the whole trimmed content.
/// `None` when the summary text would start after `</summary`: such a block
/// cannot be read, as the summary's start would lie past its end.
pub open spec fn spec_extract_summary(inner: Seq<char>) -> Option<(Option<Seq<char>>, Seq<char>)> {
    let t = trim(inner);
    let ss = find_ci(t, 0, t.len() as int, summary_open());
    let se = find_ci(t, 0, t.len() as int, summary_close());
    let g = find_from(t, '>', ss);
    if ss < t.len() && se < t.len() && g < t.len() {
        let cs = g + 1;
        if cs > se {
            None
        } else {
            let st = trim(t.subrange(cs, se));
            let g2 = find_from(t, '>', se);
            let after = if g2 < t.len() {
                g2 + 1
            } else {
                se
            };
            let body = trim(t.subrange(after, t.len() as int));
            Some(
                (
                    if st.len() == 0 {
                        None
                    } else {
                        Some(strip_tags(st))
                    },
                    body,
                ),
            )
        }
    } else {
        Some((None, t))
    }
}

/// The view of an optional string.
pub open spec fn opt_str_view(o: Option<String>) -> Option<Seq<char>> {
    match o {
        Some(s) => Some(s@),
        None => None,
    }
}

/// Split the inner content `v[lo..hi]` of a `<details>` block into summary
/// and body (see [`spec_extract_summary`]); `None` exactly when that is `None`.
fn extract_summary(v: &Vec<char>, lo: usize, hi: usize) -> (r: Option<(Option<String>, String)>)
    requires
        lo <= hi <= v.len(),
    ensures
        match r {
            Some((sm, body)) => spec_extract_summary(v@.subrange(lo as int, hi as int)) == Some(
                (opt_str_view(sm), body@),
            ),
            None => spec_extract_summary(v@.subrange(lo as int, hi as int)) is None,
        },
{
    let ghost inner = v@.subrange(lo as int, hi as int);
    let (a, b) = trim_bounds(v, lo, hi);
    let t = sub_vec(v, a, b);
    let n = t.len();
    let so = vec!['<', 's', 'u', 'm', 'm', 'a', 'r', 'y'];
    let sc = vec!['<', '/', 's', 'u', 'm', 'm', 'a', 'r', 'y'];
    let ss = find_ci_at(&t, 0, n, &so);
    let se = find_ci_at(&t, 0, n, &sc);
    let g = find_char(&t, '>', ss, n);
    assert(t@.subrange(0, n as int) =~= t@);
    if ss < n && se < n && g < n {
        let cs = g + 1;
        if cs > se {
            return None;
        }
        let (x, y) = trim_bounds(&t, cs, se);
        let g2 = find_char(&t, '>', se, n);
        let after = if g2 < n {
            g2 + 1
        } else {
            se
        };
        let (p, q) = trim_bounds(&t, after, n);
        let body = string_of(&t, p, q);
        let summary = if x == y {
            None
        } else {
            Some(strip_tags_at(&t, x, y))
        };
        Some((summary, body))
    } else {
        Some((None, string_of(&t, 0, n)))
    }
}

/// Start of the last `</details` tag (any case) in `d[..j]`, or `-1`.
pub open spec fn last_close_before(d: Seq<char>, j: int) -> int
    decreases j,
{
    if j <= 0 {
        -1
    } else if ci_match(d, j - 1, close_tag()) {
        j - 1
    } else {
        last_close_before(d, j - 1)
    }
}

/// End of the last `</details` tag of `d`: just after its `>`, or after the
/// tag name when no `>` follows.
pub open spec fn spec_last_close_end(d: Seq<char>) -> Option<int> {
    let i = last_close_before(d, d.len() as int);
    if i < 0 {
        None
    } else {
        let gt = find_from(d, '>', i);
        Some(
            if gt < d.len() {
                gt + 1
            } else {
                i + 9
            },
        )
    }
}

/// Find the end of the last `</details>` tag of `d`.
fn find_last_details_close_end(d: &Vec<char>) -> (r: Option<usize>)
    ensures
        match r {
            Some(e) => spec_last_close_end(d@) == Some(e as int) && e <= d.len(),
            None => spec_last_close_end(d@) is None,
        },
{
    let sc = vec!['<', '/', 'd', 'e', 't', 'a', 'i', 'l', 's'];
    let mut j = d.len();
    while j > 0
        invariant
            j <= d.len(),
            sc@ == close_tag(),
            last_close_before(d@, d.len() as int) == last_close_before(d@, j as int),
        decreases j,
    {
        let i = j - 1;
        if d.len() >= 9 && i <= d.len() - 9 && find_ci_at(d, i, i + 9, &sc) == i {
            proof {
                lemma_find_ci(d@, i as int, i + 9, close_tag());
                assert(ci_match(d@, i as int, close_tag()));
            }
            let gt = find_char(d, '>', i, d.len());
            assert(d@.subrange(0, d.len() as int) =~= d@);
            return Some(
                if gt < d.len() {
                    gt + 1
                } else {
                    i + 9
                },
            );
        }
        proof {
            if ci_match(d@, i as int, close_tag()) {
                assert(find_ci(d@, i as int, i + 9, close_tag()) == i);
            }
        }
        j = i;
    }
    None
}

/// Result of reading a `<details>` block `d`: `None` when reading it would
/// slice out of order (see [`spec_extract_summary`]); `Some(None)` when `d`
/// is not a complete block; otherwise the summary and body.
///
/// The block starts at the first `<details` (any case) and its opening tag
/// ends at the following `>`; the content runs to the end of the last
/// `</details` tag (or the end of `d`) and must be non-empty.
#[verifier::opaque]
pub open spec fn spec_details_block(d: Seq<char>) -> Option<Option<(Option<Seq<char>>, Seq<char>)>> {
    let start = find_ci(d, 0, d.len() as int, open_tag());
    let g = find_from(d, '>', start);
    if start >= d.len() || g >= d.len() {
        Some(None)
    } else {
        let end = match spec_last_close_end(d) {
            Some(e) => e,
            None => d.len() as int,
        };
        if end <= g {
            Some(None)
        } else {
            match spec_extract_summary(d.subrange(g + 1, end)) {
                Some(x) => Some(Some(x)),
                None => None,
            }
        }
    }
}

/// [`spec_details_block`] of `d`; the outer `None` marks the inputs on which
/// reading the summary would slice out of order.
fn details_block_of(d: &Vec<char>) -> (r: Option<Option<(Option<String>, String)>>)
    ensures
        match r {
            None => spec_details_block(d@) is None,
            Some(None) => spec_details_block(d@) == Some(
                None::<(Option<Seq<char>>, Seq<char>)>,
            ),
            Some(Some((sm, body))) => spec_details_block(d@) == Some(
                Some((opt_str_view(sm), body@)),
            ) && body@.len() < d@.len(),
        },
{
    proof {
        reveal(spec_details_block);
    }
    let so = vec!['<', 'd', 'e', 't', 'a', 'i', 'l', 's'];
    let n = d.len();
    let start = find_ci_at(d, 0, n, &so);
    let g = find_char(d, '>', start, n);
    assert(d@.subrange(0, n as int) =~= d@);
    if start >= n || g >= n {
        return Some(None);
    }
    let end = match find_last_details_close_end(d) {
        Some(e) => e,
        None => n,
    };
    if end <= g {
        return Some(None);
    }
    match extract_summary(d, g + 1, end) {
        Some((sm, body)) => {
            proof {
                lemma_extract_summary_len(d@.subrange(g + 1, end as int));
            }
            Some(Some((sm, body)))
        },
        None => None,
    }
}

proof fn lemma_trim_len(s: Seq<char>)
    ensures
        trim(s).len() <= s.len(),
{
    crate::text::lemma_skip_ws_from_bounds(s, 0);
    lemma_trim_end_le(s, s.len() as int);
}

proof fn lemma_trim_end_le(s: Seq<char>, j: int)
    requires
        0 <= j <= s.len(),
    ensures
        0 <= crate::text::trim_end_at(s, j) <= j,
    decreases j,
{
    if j > 0 && is_ws(s[j - 1]) {
        lemma_trim_end_le(s, j - 1);
    }
}

proof fn lemma_extract_summary_len(inner: Seq<char>)
    ensures
        spec_extract_summary(inner) matches Some((_, body)) ==> body.len() <= inner.len(),
{
    let t = trim(inner);
    lemma_trim_len(inner);
    let ss = find_ci(t, 0, t.len() as int, summary_open());
    let se = find_ci(t, 0, t.len() as int, summary_close());
    lemma_find_ci(t, 0, t.len() as int, summary_open());
    lemma_find_ci(t, 0, t.len() as int, summary_close());
    let g = find_from(t, '>', ss);
    if ss < t.len() && se < t.len() && g < t.len() && g + 1 <= se {
        let g2 = find_from(t, '>', se);
        lemma_find_from_ge(t, '>', se);
        let after = if g2 < t.len() {
            g2 + 1
        } else {
            se
        };
        lemma_trim_len(t.subrange(after, t.len() as int));
    }
}

/// Parse a `<details>` block into (summary, body) (see [`spec_details_block`]).
pub fn parse_details_block(source: &str) -> (r: Option<(Option<String>, String)>)
    requires
        spec_details_block(source@) is Some,
    ensures
        match r {
            None => spec_details_block(source@) == Some(None::<(Option<Seq<char>>, Seq<char>)>),
            Some((sm, body)) => spec_details_block(source@) == Some(
                Some((opt_str_view(sm), body@)),
            ),
        },
{
    let d = chars_of(source);
    match details_block_of(&d) {
        Some(x) => x,
        None => None,
    }
}


/// A segment of the source: plain markdown, or a `<details>` block.
pub enum Segment {
    Markdown(String),
    Details { summary: Option<String>, body: String, open: bool },
}

/// The mathematical value of a [`Segment`].
pub enum SegmentV {
    Markdown(Seq<char>),
    Details { summary: Option<Seq<char>>, body: Seq<char>, open: bool },
}

impl View for Segment {
    type V = SegmentV;

    open spec fn view(&self) -> SegmentV {
        match self {
            Segment::Markdown(m) => SegmentV::Markdown(m@),
            Segment::Details { summary, body, open } => SegmentV::Details {
                summary: opt_str_view(*summary),
                body: body@,
                open: *open,
            },
        }
    }
}

/// The views of a sequence of segments.
pub open spec fn segments_view(s: Seq<Segment>) -> Seq<SegmentV> {
    s.map_values(|x: Segment| x@)
}

/// The ranges `parts` of `s`, joined with `\n`.
pub open spec fn join_parts(s: Seq<char>, parts: Seq<(int, int)>) -> Seq<char>
    decreases parts.len(),
{
    if parts.len() == 0 {
        Seq::empty()
    } else if parts.len() == 1 {
        s.subrange(parts[0].0, parts[0].1)
    } else {
        join_parts(s, parts.subrange(0, parts.len() - 1)) + seq!['\n'] + s.subrange(
            parts[parts.len() - 1].0,
            parts[parts.len() - 1].1,
        )
    }
}

/// The lines of a `<details>` block after its first line, from line `li` on,
/// at nesting `depth`: lines inside a fence are taken whole; otherwise each
/// line is taken up to its cut, and the scan stops at the line that closes
/// the block (whose remainder becomes the pending line) or at the end of
/// the text. Returns the collected parts, the next line index and the
/// pending remainder.
pub open spec fn details_tail(
    s: Seq<char>,
    ls: Seq<(int, int)>,
    li: int,
    depth: int,
    dfence: Option<(char, usize)>,
    parts: Seq<(int, int)>,
) -> (Seq<(int, int)>, int, Option<(int, int)>)
    decreases ls.len() - li,
{
    if depth <= 0 || li < 0 || li >= ls.len() {
        (parts, li, None)
    } else {
        let x = ls[li].0;
        let y = ls[li].1;
        let f2 = fence_after(s, x, y, dfence);
        if f2 is Some {
            details_tail(s, ls, li + 1, depth, f2, parts.push((x, y)))
        } else {
            let (cut, d2) = split_line_from(s, y, x, depth);
            if d2 == 0 {
                (
                    parts.push((x, cut)),
                    li + 1,
                    if cut < y {
                        Some((cut, y))
                    } else {
                        None
                    },
                )
            } else {
                details_tail(s, ls, li + 1, d2, f2, parts.push((x, cut)))
            }
        }
    }
}

/// The parts of the `<details>` block whose tag starts at `st` in the line
/// `s[..b]`, the next line index and the pending remainder: the first part
/// runs from the tag to the line's cut; when the block is still open the
/// following lines are collected with [`details_tail`].
#[verifier::opaque]
pub open spec fn collect_spec(s: Seq<char>, ls: Seq<(int, int)>, li1: int, st: int, b: int) -> (
    Seq<(int, int)>,
    int,
    Option<(int, int)>,
) {
    let (cut, d) = split_line_from(s, b, st, 0);
    if d > 0 {
        details_tail(s, ls, li1, d, None, seq![(st, cut)])
    } else {
        (
            seq![(st, cut)],
            li1,
            if cut < b {
                Some((cut, b))
            } else {
                None
            },
        )
    }
}

/// The segments a line emits when it holds a `<details` tag at `st` (in
/// `s[a..b]`, with markdown `buf` accumulated so far): the markdown before
/// the tag (if any), then the block read with [`spec_details_block`]; with
/// the next line index and pending remainder. `None` when reading the block
/// slices out of order.
#[verifier::opaque]
pub open spec fn details_branch(
    s: Seq<char>,
    ls: Seq<(int, int)>,
    li1: int,
    a: int,
    st: int,
    b: int,
    buf: Seq<char>,
) -> Option<(Seq<SegmentV>, int, Option<(int, int)>)> {
    let buf1 = if st > a {
        buf + s.subrange(a, st) + seq!['\n']
    } else {
        buf
    };
    let out1 = if buf1.len() > 0 {
        seq![SegmentV::Markdown(buf1)]
    } else {
        Seq::empty()
    };
    let open = spec_has_open(s, st, b);
    let (parts, li2, pend2) = collect_spec(s, ls, li1, st, b);
    let dsrc = join_parts(s, parts);
    match spec_details_block(dsrc) {
        None => None,
        Some(blk) => {
            let seg = match blk {
                Some((sm, body)) => SegmentV::Details { summary: sm, body, open },
                None => SegmentV::Markdown(dsrc),
            };
            Some((out1 + seq![seg], li2, pend2))
        },
    }
}

/// `Some(prefix + r)` for `Some(r)`, `None` for `None`.
pub open spec fn prepend(prefix: Seq<SegmentV>, o: Option<Seq<SegmentV>>) -> Option<Seq<SegmentV>> {
    match o {
        Some(r) => Some(prefix + r),
        None => None,
    }
}

/// A pending range measures its length plus one; no pending range measures 0.
pub open spec fn pending_measure(p: Option<(int, int)>) -> int {
    match p {
        Some((a, b)) => if b >= a {
            b - a + 1
        } else {
            1
        },
        None => 0,
    }
}

/// Segments of the text from line `li` on (after the pending remainder, if
/// any) with fence state `fence` and markdown accumulated in `buf`.
///
/// Outside a fence, a line holding `<details` (any case) ends the markdown
/// before it (the text before the tag is kept as a line of its own); the
/// block then runs from the tag through the line that closes it (see
/// [`details_tail`]), is joined with `\n` and read with
/// [`spec_details_block`]: a complete block becomes a details segment (open
/// when its tag has the `open` attribute), anything else a markdown segment
/// of its raw text. All other lines are added to the markdown buffer, each
/// followed by `\n`. `None` when reading some block slices out of order.
#[verifier::opaque]
pub open spec fn segs_from(
    s: Seq<char>,
    ls: Seq<(int, int)>,
    li: int,
    pending: Option<(int, int)>,
    fence: Option<(char, usize)>,
    buf: Seq<char>,
) -> Option<Seq<SegmentV>>
    decreases ls.len() - li, pending_measure(pending),
{
    if li < 0 || li > ls.len() || (pending is None && li == ls.len()) {
        Some(
            if buf.len() > 0 {
                seq![SegmentV::Markdown(buf)]
            } else {
                Seq::empty()
            },
        )
    } else {
        let a = match pending {
            Some(p) => p.0,
            None => ls[li].0,
        };
        let b = match pending {
            Some(p) => p.1,
            None => ls[li].1,
        };
        let li1 = match pending {
            Some(_) => li,
            None => li + 1,
        };
        let f = fence_after(s, a, b, fence);
        let st = find_ci(s, a, b, open_tag());
        if f is None && 0 <= a <= st < b <= s.len() {
            proof {
                lemma_find_ci(s, a, b, open_tag());
                lemma_details_branch_bounds(s, ls, li1, a, st, b, buf);
            }
            match details_branch(s, ls, li1, a, st, b, buf) {
                None => None,
                Some((out, li2, pend2)) => prepend(out, segs_from(s, ls, li2, pend2, f, Seq::empty())),
            }
        } else {
            segs_from(s, ls, li1, None, f, buf + s.subrange(a, b) + seq!['\n'])
        }
    }
}

/// The line index that [`details_branch`] moves to is not before `li1` nor
/// past the last line; where it stays at `li1`, the pending remainder is
/// shorter than the line `s[a..b]`.
pub proof fn lemma_details_branch_bounds(
    s: Seq<char>,
    ls: Seq<(int, int)>,
    li1: int,
    a: int,
    st: int,
    b: int,
    buf: Seq<char>,
)
    requires
        0 <= li1 <= ls.len(),
        0 <= a <= st < b <= s.len(),
        st + 8 <= b,
        ci_match(s, st, open_tag()),
    ensures
        details_branch(s, ls, li1, a, st, b, buf) matches Some((_, li2, pend2)) ==> li1 <= li2
            <= ls.len() && (li2 == li1 ==> pending_measure(pend2) < b - a + 1),
{
    reveal(details_branch);
    reveal(collect_spec);
    lemma_split_from_open(s, b, st);
    let (cut, d) = split_line_from(s, b, st, 0);
    lemma_details_tail_bounds(s, ls, li1, d, None, seq![(st, cut)]);
}

pub proof fn lemma_split_from_open(s: Seq<char>, b: int, st: int)
    requires
        0 <= st < b <= s.len(),
        st + 8 <= b,
        ci_match(s, st, open_tag()),
    ensures
        st + 8 <= split_line_from(s, b, st, 0).0 <= b,
{
    lemma_find_ci(s, st, b, open_tag());
    lemma_find_ci(s, st, b, close_tag());
    assert(find_ci(s, st, b, open_tag()) == st);
    lemma_split_line_bounds(s, b, st + 8, 1);
}

pub proof fn lemma_details_tail_bounds(
    s: Seq<char>,
    ls: Seq<(int, int)>,
    li: int,
    depth: int,
    dfence: Option<(char, usize)>,
    parts: Seq<(int, int)>,
)
    requires
        0 <= li <= ls.len(),
    ensures
        li <= details_tail(s, ls, li, depth, dfence, parts).1 <= ls.len(),
        depth > 0 && li < ls.len() ==> details_tail(s, ls, li, depth, dfence, parts).1 > li,
        details_tail(s, ls, li, depth, dfence, parts).2 is Some ==> details_tail(
            s,
            ls,
            li,
            depth,
            dfence,
            parts,
        ).1 > li,
    decreases ls.len() - li,
{
    if depth > 0 && li < ls.len() {
        let x = ls[li].0;
        let y = ls[li].1;
        let f2 = fence_after(s, x, y, dfence);
        if f2 is Some {
            lemma_details_tail_bounds(s, ls, li + 1, depth, f2, parts.push((x, y)));
        } else {
            let (cut, d2) = split_line_from(s, y, x, depth);
            if d2 != 0 {
                lemma_details_tail_bounds(s, ls, li + 1, d2, f2, parts.push((x, cut)));
            }
        }
    }
}

/// The segments of a source text (see [`segs_from`]).
pub open spec fn spec_segments(source: Seq<char>) -> Option<Seq<SegmentV>> {
    segs_from(source, lines_from(source, 0), 0, None, None, Seq::empty())
}


/// The integer view of an optional range.
pub open spec fn range_int(p: Option<(usize, usize)>) -> Option<(int, int)> {
    match p {
        Some((a, b)) => Some((a as int, b as int)),
        None => None,
    }
}

/// The facts `line_ranges` gives about the lines of `v`.
pub open spec fn lines_match(v: Seq<char>, lines: Seq<(usize, usize)>) -> bool {
    &&& lines.len() == lines_from(v, 0).len()
    &&& forall|k: int|
        0 <= k < lines.len() ==> (#[trigger] lines[k]).0 as int == lines_from(v, 0)[k].0
            && lines[k].1 as int == lines_from(v, 0)[k].1
    &&& ranges_ordered(v, lines_from(v, 0), 0)
}

proof fn lemma_join_push(s: Seq<char>, parts: Seq<(int, int)>, x: int, y: int)
    requires
        parts.len() >= 1,
    ensures
        join_parts(s, parts.push((x, y))) == join_parts(s, parts) + seq!['\n'] + s.subrange(x, y),
{
    assert(parts.push((x, y)).subrange(0, parts.len() as int) =~= parts);
}

/// Collect the `<details>` block whose tag starts at `st` in the line
/// `v[..b]` (see [`collect_spec`]), joined with `\n`.
#[verifier::rlimit(80)]
fn collect_details(
    v: &Vec<char>,
    lines: &Vec<(usize, usize)>,
    li1: usize,
    st: usize,
    b: usize,
    open: &Vec<char>,
    close: &Vec<char>,
) -> (r: (Vec<char>, usize, Option<(usize, usize)>))
    requires
        lines_match(v@, lines@),
        st < b <= v.len(),
        ci_match(v@, st as int, open_tag()),
        st + 8 <= b,
        1 <= li1 <= lines.len(),
        b == lines@[li1 - 1].1,
        lines@[li1 - 1].0 <= st,
        open@ == open_tag(),
        close@ == close_tag(),
    ensures
        ({
            let (parts, li2, pend2) = collect_spec(
                v@,
                lines_from(v@, 0),
                li1 as int,
                st as int,
                b as int,
            );
            &&& r.0@ == join_parts(v@, parts)
            &&& r.1 as int == li2
            &&& range_int(r.2) == pend2
        }),
        r.0@.len() <= v@.len(),
        li1 <= r.1 <= lines.len(),
        r.2 matches Some((pa, pb)) ==> r.1 >= 1 && lines@[r.1 - 1].0 <= pa <= pb
            && pb == lines@[r.1 - 1].1,
{
    proof {
        reveal(collect_spec);
    }
    let ghost s = v@;
    let ghost ls = lines_from(v@, 0);
    let (cut, d) = split_details_line(v, st, b, 0, open, close);
    let mut dsrc = sub_vec(v, st, cut);
    let ghost mut parts = seq![(st as int, cut as int)];
    if d == 0 {
        return (
            dsrc,
            li1,
            if cut < b {
                Some((cut, b))
            } else {
                None
            },
        );
    }
    let mut depth = d;
    let mut dfence: Option<(char, usize)> = None;
    let mut li = li1;
    assert(collect_spec(s, ls, li1 as int, st as int, b as int) == details_tail(
        s,
        ls,
        li1 as int,
        d as int,
        None,
        seq![(st as int, cut as int)],
    ));
    while li < lines.len()
        invariant
            collect_spec(s, ls, li1 as int, st as int, b as int) == details_tail(
                s,
                ls,
                li1 as int,
                d as int,
                None,
                seq![(st as int, cut as int)],
            ),
            lines_match(s, lines@),
            s == v@,
            ls == lines_from(s, 0),
            open@ == open_tag(),
            close@ == close_tag(),
            1 <= li1 <= li <= lines.len(),
            depth > 0,
            depth * 8 <= lines@[li - 1].1,
            st <= lines@[li - 1].1,
            parts.len() >= 1,
            dsrc@ == join_parts(s, parts),
            dsrc@.len() <= lines@[li - 1].1 - st,
            details_tail(s, ls, li1 as int, d as int, None, seq![(st as int, cut as int)])
                == details_tail(s, ls, li as int, depth as int, dfence, parts),
        decreases lines.len() - li,
    {
        let (x, y) = lines[li];
        proof {
            assert(lines@[li as int].0 as int == ls[li as int].0);
            assert(lines@[li - 1].1 as int == ls[li - 1].1);
            assert(ls[li as int].0 >= ls[li - 1].1 + 1);
            assert(ls[li as int].0 <= ls[li as int].1 <= s.len());
        }
        let ghost dt = details_tail(s, ls, li as int, depth as int, dfence, parts);
        let f2 = update_fence_state(v, x, y, dfence);
        let ghost old_parts = parts;
        let ghost old_len = dsrc@.len();
        if f2.is_some() {
            push_part(&mut dsrc, v, x, y);
            proof {
                parts = parts.push((x as int, y as int));
                lemma_join_push(s, old_parts, x as int, y as int);
            }
            assert(dt == details_tail(s, ls, li + 1, depth as int, f2, parts));
            dfence = f2;
            li = li + 1;
        } else {
            let (cut2, d2) = split_details_line(v, x, y, depth, open, close);
            push_part(&mut dsrc, v, x, cut2);
            proof {
                parts = parts.push((x as int, cut2 as int));
                lemma_join_push(s, old_parts, x as int, cut2 as int);
                if d2 == 0 {
                    assert(dt == (parts, li + 1, if cut2 < y {
                        Some((cut2 as int, y as int))
                    } else {
                        None
                    }));
                } else {
                    assert(dt == details_tail(s, ls, li + 1, d2 as int, f2, parts));
                }
            }
            li = li + 1;
            if d2 == 0 {
                return (
                    dsrc,
                    li,
                    if cut2 < y {
                        Some((cut2, y))
                    } else {
                        None
                    },
                );
            }
            depth = d2;
            dfence = f2;
        }
    }
    (dsrc, li, None)
}

/// `\n` and the text `v[a..b]` appended to `buf`.
fn push_part(buf: &mut Vec<char>, v: &Vec<char>, a: usize, b: usize)
    requires
        a <= b <= v.len(),
    ensures
        final(buf)@ == old(buf)@ + seq!['\n'] + v@.subrange(a as int, b as int),
{
    buf.push('\n');
    append_range(buf, v, a, b);
}

/// The text `v[a..b]` appended to `buf`.
pub fn append_range(buf: &mut Vec<char>, v: &Vec<char>, a: usize, b: usize)
    requires
        a <= b <= v.len(),
    ensures
        final(buf)@ == old(buf)@ + v@.subrange(a as int, b as int),
{
    let mut i = a;
    while i < b
        invariant
            a <= i <= b <= v.len(),
            buf@ == old(buf)@ + v@.subrange(a as int, i as int),
        decreases b - i,
    {
        buf.push(v[i]);
        assert(v@.subrange(a as int, i + 1) =~= v@.subrange(a as int, i as int).push(v@[i as int]));
        i = i + 1;
    }
}

/// A string of all the characters of `v`.
fn string_of_vec(v: &Vec<char>) -> (r: String)
    ensures
        r@ == v@,
{
    let r = string_of(v, 0, v.len());
    assert(v@.subrange(0, v@.len() as int) =~= v@);
    r
}

/// Every details segment's body is shorter than `n`.
pub open spec fn bodies_shorter(segs: Seq<Segment>, n: nat) -> bool {
    forall|k: int|
        0 <= k < segs.len() ==> (#[trigger] segs[k] matches Segment::Details { body, .. } ==> body@.len()
            < n)
}

/// Emit the segments of a line that holds a `<details` tag at `st` (see
/// [`details_branch`]); returns the next line index and pending remainder.
#[verifier::rlimit(80)]
fn handle_details(
    v: &Vec<char>,
    lines: &Vec<(usize, usize)>,
    li1: usize,
    a: usize,
    st: usize,
    b: usize,
    segments: &mut Vec<Segment>,
    buffer: &mut Vec<char>,
    open: &Vec<char>,
    close: &Vec<char>,
) -> (r: Option<(usize, Option<(usize, usize)>)>)
    requires
        lines_match(v@, lines@),
        a <= st < b <= v.len(),
        st == find_ci(v@, a as int, b as int, open_tag()),
        1 <= li1 <= lines.len(),
        b == lines@[li1 - 1].1,
        lines@[li1 - 1].0 <= a,
        open@ == open_tag(),
        close@ == close_tag(),
        bodies_shorter(old(segments)@, v@.len()),
    ensures
        match r {
            None => details_branch(
                v@,
                lines_from(v@, 0),
                li1 as int,
                a as int,
                st as int,
                b as int,
                old(buffer)@,
            ) is None,
            Some((li2, pend2)) => {
                &&& details_branch(
                    v@,
                    lines_from(v@, 0),
                    li1 as int,
                    a as int,
                    st as int,
                    b as int,
                    old(buffer)@,
                ) == Some(
                    (
                        segments_view(final(segments)@).subrange(
                            old(segments)@.len() as int,
                            final(segments)@.len() as int,
                        ),
                        li2 as int,
                        range_int(pend2),
                    ),
                )
                &&& final(segments)@.subrange(0, old(segments)@.len() as int) == old(segments)@
                &&& final(segments)@.len() >= old(segments)@.len()
                &&& final(buffer)@.len() == 0
                &&& li1 <= li2 <= lines.len()
                &&& (li2 == li1 ==> pending_measure(range_int(pend2)) < b - a + 1)
                &&& pend2 matches Some((pa, pb)) ==> li2 >= 1 && lines@[li2 - 1].0 <= pa <= pb
                    && pb == lines@[li2 - 1].1
                &&& bodies_shorter(final(segments)@, v@.len())
            },
        },
{
    proof {
        reveal(details_branch);
        lemma_find_ci(v@, a as int, b as int, open_tag());
        lemma_details_branch_bounds(
            v@,
            lines_from(v@, 0),
            li1 as int,
            a as int,
            st as int,
            b as int,
            old(buffer)@,
        );
    }
    let ghost seg0 = segments@;
    let ghost ls = lines_from(v@, 0);
    let ghost buf_spec = if st > a {
        old(buffer)@ + v@.subrange(a as int, st as int) + seq!['\n']
    } else {
        old(buffer)@
    };
    if st > a {
        append_range(buffer, v, a, st);
        buffer.push('\n');
    }
    assert(buffer@ =~= buf_spec);
    let ghost buf1 = buffer@;
    if buffer.len() > 0 {
        let m = string_of_vec(buffer);
        segments.push(Segment::Markdown(m));
        *buffer = Vec::new();
    }
    let open_attr = has_open_attribute_at(v, st, b);
    let (dsrc, li2, pend2) = collect_details(v, lines, li1, st, b, open, close);
    let ghost cs = collect_spec(v@, ls, li1 as int, st as int, b as int);
    assert(dsrc@ == join_parts(v@, cs.0));
    assert(li2 as int == cs.1);
    assert(range_int(pend2) == cs.2);
    let blk = details_block_of(&dsrc);
    let seg = match blk {
        None => {
            return None;
        },
        Some(None) => Segment::Markdown(string_of_vec(&dsrc)),
        Some(Some((summary, body))) => Segment::Details { summary, body, open: open_attr },
    };
    let ghost seg1 = segments@;
    segments.push(seg);
    proof {
        let out1: Seq<SegmentV> = if buf1.len() > 0 {
            seq![SegmentV::Markdown(buf1)]
        } else {
            Seq::empty()
        };
        let sb = spec_details_block(dsrc@);
        assert(sb is Some);
        let segv = match sb.unwrap() {
            Some((sm, body)) => SegmentV::Details { summary: sm, body, open: open_attr },
            None => SegmentV::Markdown(dsrc@),
        };
        assert(seg@ == segv);
        assert(segments_view(segments@).subrange(seg0.len() as int, segments@.len() as int)
            =~= out1 + seq![segv]);
        assert(details_branch(v@, ls, li1 as int, a as int, st as int, b as int, old(buffer)@)
            == Some((out1 + seq![segv], cs.1, cs.2)));
        assert(segments@.subrange(0, seg0.len() as int) =~= seg0);
        assert forall|k: int| 0 <= k < segments@.len() implies (#[trigger] segments@[k] matches Segment::Details { body, .. } ==> body@.len() < v@.len()) by {
            if k < seg0.len() {
                assert(segments@[k] == seg0[k]);
            }
        }
    }
    Some((li2, pend2))
}

/// One step of [`segs_from`] on a line that is read.
proof fn lemma_segs_step(
    s: Seq<char>,
    ls: Seq<(int, int)>,
    li: int,
    pending: Option<(int, int)>,
    fence: Option<(char, usize)>,
    buf: Seq<char>,
)
    requires
        0 <= li <= ls.len(),
        !(pending is None && li == ls.len()),
    ensures
        ({
            let a = match pending {
                Some(p) => p.0,
                None => ls[li].0,
            };
            let b = match pending {
                Some(p) => p.1,
                None => ls[li].1,
            };
            let li1 = match pending {
                Some(_) => li,
                None => li + 1,
            };
            let f = fence_after(s, a, b, fence);
            let st = find_ci(s, a, b, open_tag());
            segs_from(s, ls, li, pending, fence, buf) == if f is None && 0 <= a <= st < b <= s.len() {
                match details_branch(s, ls, li1, a, st, b, buf) {
                    None => None,
                    Some((out, li2, pend2)) => prepend(
                        out,
                        segs_from(s, ls, li2, pend2, f, Seq::empty()),
                    ),
                }
            } else {
                segs_from(s, ls, li1, None, f, buf + s.subrange(a, b) + seq!['\n'])
            }
        }),
{
    reveal(segs_from);
}

proof fn lemma_prepend_prepend(p: Seq<SegmentV>, q: Seq<SegmentV>, o: Option<Seq<SegmentV>>)
    ensures
        prepend(p, prepend(q, o)) == prepend(p + q, o),
{
    if let Some(r) = o {
        assert(p + (q + r) =~= (p + q) + r);
    }
}

proof fn lemma_view_split(segs: Seq<Segment>, old_segs: Seq<Segment>)
    requires
        segs.len() >= old_segs.len(),
        segs.subrange(0, old_segs.len() as int) == old_segs,
    ensures
        segments_view(segs) == segments_view(old_segs) + segments_view(segs).subrange(
            old_segs.len() as int,
            segs.len() as int,
        ),
{
    assert(segments_view(segs) =~= segments_view(old_segs) + segments_view(segs).subrange(
        old_segs.len() as int,
        segs.len() as int,
    )) by {
        assert forall|k: int| 0 <= k < old_segs.len() implies segments_view(segs)[k]
            == segments_view(old_segs)[k] by {
            assert(segs[k] == segs.subrange(0, old_segs.len() as int)[k]);
        }
    }
}

/// Split source into segments, extracting top-level `<details>` blocks (see
/// [`spec_segments`]); `None` exactly when that is `None`.
#[verifier::rlimit(100)]
#[verifier::spinoff_prover]
pub fn try_split_details_segments(source: &str) -> (r: Option<Vec<Segment>>)
    ensures
        match r {
            Some(segs) => spec_segments(source@) == Some(segments_view(segs@)) && bodies_shorter(
                segs@,
                source@.len(),
            ),
            None => spec_segments(source@) is None,
        },
{
    let v = chars_of(source);
    let lines = line_ranges(&v);
    let ghost s = v@;
    let ghost ls = lines_from(s, 0);
    let open = vec!['<', 'd', 'e', 't', 'a', 'i', 'l', 's'];
    let close = vec!['<', '/', 'd', 'e', 't', 'a', 'i', 'l', 's'];
    let mut segments: Vec<Segment> = Vec::new();
    let mut buffer: Vec<char> = Vec::new();
    let mut fence: Option<(char, usize)> = None;
    let mut li: usize = 0;
    let mut pending: Option<(usize, usize)> = None;
    assert(segments_view(segments@) =~= Seq::<SegmentV>::empty());
    loop
        invariant
            s == v@,
            s == source@,
            ls == lines_from(s, 0),
            lines_match(s, lines@),
            open@ == open_tag(),
            close@ == close_tag(),
            li <= lines.len(),
            pending matches Some((pa, pb)) ==> li >= 1 && lines@[li - 1].0 <= pa <= pb && pb
                == lines@[li - 1].1,
            spec_segments(s) == prepend(
                segments_view(segments@),
                segs_from(s, ls, li as int, range_int(pending), fence, buffer@),
            ),
            bodies_shorter(segments@, s.len()),
        ensures
            pending is None,
            li >= lines.len(),
            lines_match(s, lines@),
            ls == lines_from(s, 0),
            spec_segments(s) == prepend(
                segments_view(segments@),
                segs_from(s, ls, li as int, None, fence, buffer@),
            ),
            bodies_shorter(segments@, s.len()),
        decreases lines.len() - li, pending_measure(range_int(pending)),
    {
        let ghost pend0 = range_int(pending);
        let ghost li0 = li as int;
        let ghost fence0 = fence;
        let ghost buf0 = buffer@;
        let ghost segs0 = segments@;
        let (a, b) = match pending {
            Some(p) => p,
            None => {
                if li >= lines.len() {
                    break;
                }
                li = li + 1;
                lines[li - 1]
            },
        };
        pending = None;
        proof {
            assert(lines@[li - 1].0 as int == ls[li - 1].0);
            assert(lines@[li - 1].1 as int == ls[li - 1].1);
            assert(ls[li - 1].0 <= ls[li - 1].1 <= s.len());
            assert(a as int == (match pend0 {
                Some(p) => p.0,
                None => ls[li0].0,
            }));
            assert(b as int == (match pend0 {
                Some(p) => p.1,
                None => ls[li0].1,
            }));
            assert(li as int == (match pend0 {
                Some(_) => li0,
                None => li0 + 1,
            }));
            lemma_segs_step(s, ls, li0, pend0, fence0, buf0);
        }
        fence = update_fence_state(&v, a, b, fence);
        let st = find_ci_at(&v, a, b, &open);
        proof {
            lemma_find_ci(s, a as int, b as int, open_tag());
        }
        if fence.is_none() && st < b {
            match handle_details(&v, &lines, li, a, st, b, &mut segments, &mut buffer, &open, &close) {
                None => {
                    return None;
                },
                Some((li2, pend2)) => {
                    proof {
                        lemma_view_split(segments@, segs0);
                        lemma_prepend_prepend(
                            segments_view(segs0),
                            segments_view(segments@).subrange(segs0.len() as int, segments@.len() as int),
                            segs_from(s, ls, li2 as int, range_int(pend2), fence, Seq::empty()),
                        );
                        assert(buffer@ =~= Seq::<char>::empty());
                    }
                    li = li2;
                    pending = pend2;
                },
            }
        } else {
            append_range(&mut buffer, &v, a, b);
            buffer.push('\n');
            assert(buffer@ =~= buf0 + s.subrange(a as int, b as int) + seq!['\n']);
        }
    }
    proof {
        reveal(segs_from);
    }
    if buffer.len() > 0 {
        let m = string_of_vec(&buffer);
        let ghost seg0 = segments@;
        segments.push(Segment::Markdown(m));
        assert(segments_view(segments@) =~= segments_view(seg0).push(SegmentV::Markdown(buffer@)));
        assert forall|k: int| 0 <= k < segments@.len() implies (#[trigger] segments@[k] matches Segment::Details { body, .. } ==> body@.len() < s.len()) by {
            if k < seg0.len() {
                assert(segments@[k] == seg0[k]);
            }
        }
    } else {
        assert(segments_view(segments@) + Seq::<SegmentV>::empty() =~= segments_view(segments@));
    }
    Some(segments)
}

/// Split source into segments, extracting top-level `<details>` blocks.
///
/// Fence-aware: `<details>` inside a fenced code block is not a tag. See
/// [`spec_segments`] for what the segments are.
pub fn split_details_segments(source: &str) -> (r: Vec<Segment>)
    requires
        spec_segments(source@) is Some,
    ensures
        spec_segments(source@) == Some(segments_view(r@)),
        bodies_shorter(r@, source@.len()),
{
    match try_split_details_segments(source) {
        Some(segs) => segs,
        None => Vec::new(),
    }
}

/// Character index of the first `<details` (any case) in `s`, or `s.len()`.
pub open spec fn details_start(s: Seq<char>) -> int {
    find_ci(s, 0, s.len() as int, open_tag())
}

/// Byte offset of the first `<details` (any ASCII case) in a line.
pub fn find_details_start(line: &str) -> (r: Option<usize>)
    ensures
        match r {
            Some(k) => details_start(line@) < line@.len() && k == encode_utf8(
                line@.subrange(0, details_start(line@)),
            ).len(),
            None => details_start(line@) >= line@.len(),
        },
{
    let v = chars_of(line);
    let total = line.as_bytes().len();
    let so = vec!['<', 'd', 'e', 't', 'a', 'i', 'l', 's'];
    let i = find_ci_at(&v, 0, v.len(), &so);
    if i < v.len() {
        Some(byte_offset(&v, i, total))
    } else {
        None
    }
}

/// Whether a `<details ...>` tag line carries the `open` attribute (see
/// [`spec_has_open`]).
pub fn has_open_attribute(line: &str) -> (r: bool)
    ensures
        r == spec_has_open(line@, 0, line@.len() as int),
{
    let v = chars_of(line);
    has_open_attribute_at(&v, 0, v.len())
}

/// No `<` or `>` in a text.
pub open spec fn no_angle_brackets(t: Seq<char>) -> bool {
    forall|k: int| 0 <= k < t.len() ==> t[k] != '<' && t[k] != '>'
}

/// The summary read from the inside of a `<details>` block has its HTML
/// tags stripped: it holds no `<` or `>`.
pub proof fn lemma_extracted_summary_plain(inner: Seq<char>)
    ensures
        spec_extract_summary(inner) matches Some((Some(sm), _)) ==> no_angle_brackets(sm),
{
    let t = trim(inner);
    let ss = find_ci(t, 0, t.len() as int, summary_open());
    let se = find_ci(t, 0, t.len() as int, summary_close());
    let g = find_from(t, '>', ss);
    if ss < t.len() && se < t.len() && g < t.len() && g + 1 <= se {
        lemma_strip_tags_no_brackets(trim(t.subrange(g + 1, se)));
    }
}

/// The summary that [`parse_details_block`] reads holds no `<` or `>`.
pub proof fn lemma_details_summary_plain(d: Seq<char>)
    ensures
        spec_details_block(d) matches Some(Some((Some(sm), _))) ==> no_angle_brackets(sm),
{
    reveal(spec_details_block);
    let start = find_ci(d, 0, d.len() as int, open_tag());
    let g = find_from(d, '>', start);
    if !(start >= d.len() || g >= d.len()) {
        let end = match spec_last_close_end(d) {
            Some(e) => e,
            None => d.len() as int,
        };
        if end > g {
            lemma_extracted_summary_plain(d.subrange(g + 1, end));
        }
    }
}

/// The summaries of the details segments in a sequence hold no `<` or `>`.
pub open spec fn summaries_plain(segs: Seq<SegmentV>) -> bool {
    forall|k: int|
        0 <= k < segs.len() ==> (#[trigger] segs[k] matches SegmentV::Details { summary: Some(sm), .. }
            ==> no_angle_brackets(sm))
}

proof fn lemma_branch_plain(
    s: Seq<char>,
    ls: Seq<(int, int)>,
    li1: int,
    a: int,
    st: int,
    b: int,
    buf: Seq<char>,
)
    ensures
        details_branch(s, ls, li1, a, st, b, buf) matches Some((out, _, _)) ==> summaries_plain(out),
{
    reveal(details_branch);
    let (parts, li2, pend2) = collect_spec(s, ls, li1, st, b);
    let dsrc = join_parts(s, parts);
    lemma_details_summary_plain(dsrc);
}

proof fn lemma_segs_from_plain(
    s: Seq<char>,
    ls: Seq<(int, int)>,
    li: int,
    pending: Option<(int, int)>,
    fence: Option<(char, usize)>,
    buf: Seq<char>,
)
    ensures
        segs_from(s, ls, li, pending, fence, buf) matches Some(r) ==> summaries_plain(r),
    decreases ls.len() - li, pending_measure(pending),
{
    reveal(segs_from);
    if li < 0 || li > ls.len() || (pending is None && li == ls.len()) {
        let r = if buf.len() > 0 {
            seq![SegmentV::Markdown(buf)]
        } else {
            Seq::empty()
        };
        assert(segs_from(s, ls, li, pending, fence, buf) == Some(r));
        assert forall|k: int| 0 <= k < r.len() implies (#[trigger] r[k] matches SegmentV::Details {
            summary: Some(sm),
            ..
        } ==> no_angle_brackets(sm)) by {
            assert(r[k] is Markdown);
        }
    } else {
        let a = match pending {
            Some(p) => p.0,
            None => ls[li].0,
        };
        let b = match pending {
            Some(p) => p.1,
            None => ls[li].1,
        };
        let li1 = match pending {
            Some(_) => li,
            None => li + 1,
        };
        let f = fence_after(s, a, b, fence);
        let st = find_ci(s, a, b, open_tag());
        if f is None && 0 <= a <= st < b <= s.len() {
            assert(segs_from(s, ls, li, pending, fence, buf) == match details_branch(
                s,
                ls,
                li1,
                a,
                st,
                b,
                buf,
            ) {
                None => None,
                Some((out, li2, pend2)) => prepend(out, segs_from(s, ls, li2, pend2, f, Seq::empty())),
            });
            lemma_find_ci(s, a, b, open_tag());
            lemma_details_branch_bounds(s, ls, li1, a, st, b, buf);
            lemma_branch_plain(s, ls, li1, a, st, b, buf);
            match details_branch(s, ls, li1, a, st, b, buf) {
                None => {},
                Some((out, li2, pend2)) => {
                    lemma_segs_from_plain(s, ls, li2, pend2, f, Seq::empty());
                    match segs_from(s, ls, li2, pend2, f, Seq::empty()) {
                        None => {},
                        Some(rest) => {
                            let all = out + rest;
                            assert forall|k: int| 0 <= k < all.len() implies (#[trigger] all[k] matches SegmentV::Details {
                                summary: Some(sm),
                                ..
                            } ==> no_angle_brackets(sm)) by {
                                if k < out.len() {
                                    assert(all[k] == out[k]);
                                } else {
                                    assert(all[k] == rest[k - out.len()]);
                                }
                            }
                        },
                    }
                },
            }
        } else {
            assert(segs_from(s, ls, li, pending, fence, buf) == segs_from(
                s,
                ls,
                li1,
                None,
                f,
                buf + s.subrange(a, b) + seq!['\n'],
            ));
            lemma_segs_from_plain(s, ls, li1, None, f, buf + s.subrange(a, b) + seq!['\n']);
        }
    }
}

/// Every details segment that [`split_details_segments`] produces has a
/// summary with its HTML tags stripped: no `<` or `>` in it.
pub proof fn lemma_segment_summaries_plain(source: Seq<char>)
    ensures
        spec_segments(source) matches Some(segs) ==> summaries_plain(segs),
{
    lemma_segs_from_plain(source, lines_from(source, 0), 0, None, None, Seq::empty());
}

} // verus!
