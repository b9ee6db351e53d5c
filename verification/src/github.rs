//! GitHub-specific features: blob line references and `#123` issue
//! reference auto-linking.

use crate::text::{
    char_is_alnum, find_ws, is_alnum, is_digit, push_chars, push_str, skip_ws, words_from,
    chars_of, find_char, slice_eq, slice_starts_with, string_of, find_from, has_prefix, parse_usize, parse_usize_at, trim, trim_bounds,
};
use crate::selection::{alphanumeric, is_alphanumeric};
use crate::types::{
    inline_view, inlines_view, lemma_inlines_view_prefix, lemma_inlines_view_push,
    lemma_plain_seq_concat, lemma_plain_seq_push, plain_one, plain_seq, Inline, InlineV,
};
use vstd::prelude::*;

verus! {

/// A parsed reference to a line range in a GitHub blob URL, such as
/// `https://github.com/owner/repo/blob/main/src/lib.rs#L10-L20`.
#[derive(Clone, Debug, PartialEq, Eq, Hash)]
pub struct GithubBlobLineReference {
    pub url: String,
    pub owner: String,
    pub repo: String,
    pub reference: String,
    pub path: String,
    pub start_line: usize,
    pub end_line: usize,
}

/// The mathematical value of a [`GithubBlobLineReference`].
pub struct BlobRefV {
    pub url: Seq<char>,
    pub owner: Seq<char>,
    pub repo: Seq<char>,
    pub reference: Seq<char>,
    pub path: Seq<char>,
    pub start_line: usize,
    pub end_line: usize,
}

impl View for GithubBlobLineReference {
    type V = BlobRefV;

    open spec fn view(&self) -> BlobRefV {
        BlobRefV {
            url: self.url@,
            owner: self.owner@,
            repo: self.repo@,
            reference: self.reference@,
            path: self.path@,
            start_line: self.start_line,
            end_line: self.end_line,
        }
    }
}

/// Context for auto-linking `#123` issue references.
#[derive(Clone, Debug, PartialEq, Eq)]
pub struct GithubIssueReferenceContext {
    pub owner: String,
    pub repo: String,
}

/// `s` without a leading `L` or `l`, if it has one.
pub open spec fn strip_line_marker(s: Seq<char>) -> Option<Seq<char>> {
    if s.len() > 0 && (s[0] == 'L' || s[0] == 'l') {
        Some(s.subrange(1, s.len() as int))
    } else {
        None
    }
}

/// A line number after its `L` marker: the number must parse as a `usize`.
pub open spec fn line_number(s: Seq<char>) -> Option<usize> {
    match strip_line_marker(s) {
        Some(d) => parse_usize(d),
        None => None,
    }
}

/// The `(start, end)` lines of a `L10` or `L10-L20` fragment: lines are
/// positive and the range is not reversed.
pub open spec fn spec_line_fragment(fragment: Seq<char>) -> Option<(usize, usize)> {
    let f = trim(fragment);
    let dash = find_from(f, '-', 0);
    if dash < f.len() {
        match (line_number(f.subrange(0, dash)), line_number(f.subrange(dash + 1, f.len() as int))) {
            (Some(a), Some(b)) => if a == 0 || b == 0 || b < a {
                None
            } else {
                Some((a, b))
            },
            _ => None,
        }
    } else {
        match line_number(f) {
            Some(a) => if a == 0 {
                None
            } else {
                Some((a, a))
            },
            None => None,
        }
    }
}

/// The text after the `https://github.com/` or `http://github.com/` prefix.
pub open spec fn strip_github_prefix(u: Seq<char>) -> Option<Seq<char>> {
    if has_prefix(u, "https://github.com/"@) {
        Some(u.subrange("https://github.com/"@.len() as int, u.len() as int))
    } else if has_prefix(u, "http://github.com/"@) {
        Some(u.subrange("http://github.com/"@.len() as int, u.len() as int))
    } else {
        None
    }
}

/// The `/`-separated parts `owner/repo/kind/reference/path` of a blob path
/// (the path is the remainder after the fourth `/`).
pub open spec fn split_path(p: Seq<char>) -> Option<
    (Seq<char>, Seq<char>, Seq<char>, Seq<char>, Seq<char>),
> {
    let i1 = find_from(p, '/', 0);
    let i2 = find_from(p, '/', i1 + 1);
    let i3 = find_from(p, '/', i2 + 1);
    let i4 = find_from(p, '/', i3 + 1);
    if i4 >= p.len() {
        None
    } else {
        Some(
            (
                p.subrange(0, i1),
                p.subrange(i1 + 1, i2),
                p.subrange(i2 + 1, i3),
                p.subrange(i3 + 1, i4),
                p.subrange(i4 + 1, p.len() as int),
            ),
        )
    }
}

/// A GitHub blob URL `https://github.com/{owner}/{repo}/blob/{ref}/{path}#L..`
/// (after trimming), with every component non-empty.
pub open spec fn spec_blob_ref(url: Seq<char>) -> Option<BlobRefV> {
    let u = trim(url);
    match strip_github_prefix(u) {
        None => None,
        Some(rest) => {
            let hash = find_from(rest, '#', 0);
            if hash >= rest.len() {
                None
            } else {
                match (
                    split_path(rest.subrange(0, hash)),
                    spec_line_fragment(rest.subrange(hash + 1, rest.len() as int)),
                ) {
                    (Some((owner, repo, kind, reference, path)), Some((start, end))) => {
                        if kind != "blob"@ || owner.len() == 0 || repo.len() == 0
                            || reference.len() == 0 || path.len() == 0 {
                            None
                        } else {
                            Some(
                                BlobRefV {
                                    url: u,
                                    owner,
                                    repo,
                                    reference,
                                    path,
                                    start_line: start,
                                    end_line: end,
                                },
                            )
                        }
                    },
                    _ => None,
                }
            }
        },
    }
}

/// A parsed blob reference names a non-empty owner, repository, reference
/// and path, and a line range that starts at line 1 or later and is not
/// reversed.
pub proof fn lemma_blob_ref_valid(url: Seq<char>)
    ensures
        spec_blob_ref(url) matches Some(r) ==> 1 <= r.start_line <= r.end_line && r.owner.len() > 0
            && r.repo.len() > 0 && r.reference.len() > 0 && r.path.len() > 0,
{
}

/// [`line_number`] of `v[lo..hi]`.
fn line_number_at(v: &Vec<char>, lo: usize, hi: usize) -> (r: Option<usize>)
    requires
        lo <= hi <= v.len(),
    ensures
        r == line_number(v@.subrange(lo as int, hi as int)),
{
    if lo < hi && (v[lo] == 'L' || v[lo] == 'l') {
        let r = parse_usize_at(v, lo + 1, hi);
        assert(v@.subrange(lo as int, hi as int).subrange(1, hi - lo) =~= v@.subrange(
            lo + 1,
            hi as int,
        ));
        r
    } else {
        None
    }
}

/// Parse a `L10` or `L10-L20` fragment `v[lo..hi]` into (start, end) line numbers.
fn parse_line_fragment(v: &Vec<char>, lo: usize, hi: usize) -> (r: Option<(usize, usize)>)
    requires
        lo <= hi <= v.len(),
    ensures
        r == spec_line_fragment(v@.subrange(lo as int, hi as int)),
{
    let (a, b) = trim_bounds(v, lo, hi);
    let ghost f = v@.subrange(a as int, b as int);
    let dash = find_char(v, '-', a, b);
    proof {
        lemma_find_from_shift(v@, '-', a as int, b as int);
    }
    if dash < b {
        let start = line_number_at(v, a, dash);
        let end = line_number_at(v, dash + 1, b);
        assert(f.subrange(0, dash - a) =~= v@.subrange(a as int, dash as int));
        assert(f.subrange(dash - a + 1, f.len() as int) =~= v@.subrange(dash + 1, b as int));
        match (start, end) {
            (Some(x), Some(y)) => if x == 0 || y == 0 || y < x {
                None
            } else {
                Some((x, y))
            },
            _ => None,
        }
    } else {
        match line_number_at(v, a, b) {
            Some(x) => if x == 0 {
                None
            } else {
                Some((x, x))
            },
            None => None,
        }
    }
}

/// `find_from` over `v[a..b]`, expressed over the full vector.
proof fn lemma_find_from_shift(s: Seq<char>, c: char, a: int, b: int)
    requires
        0 <= a <= b <= s.len(),
    ensures
        find_from(s.subrange(a, b), c, 0) + a == find_from(s.subrange(0, b), c, a),
    decreases b - a,
{
    if a < b && s[a] != c {
        lemma_find_from_shift(s, c, a + 1, b);
        lemma_find_from_drop(s.subrange(a, b), c);
        assert(s.subrange(a, b).subrange(1, b - a) =~= s.subrange(a + 1, b));
    }
}

/// `find_from` within `s[a..b]`, expressed over the full sequence.
proof fn lemma_find_from_window(s: Seq<char>, c: char, a: int, b: int, k: int)
    requires
        0 <= a <= b <= s.len(),
        0 <= k <= b - a,
    ensures
        find_from(s.subrange(a, b), c, k) + a == find_from(s.subrange(0, b), c, a + k),
    decreases b - a - k,
{
    if k < b - a && s[a + k] != c {
        lemma_find_from_window(s, c, a, b, k + 1);
    }
}

/// The view of an optional blob reference.
pub open spec fn opt_blob_view(o: Option<GithubBlobLineReference>) -> Option<BlobRefV> {
    match o {
        Some(r) => Some(r@),
        None => None,
    }
}

/// Positions of the four `/` separators of the blob path `v[lo..hi]`.
fn split_path_at(v: &Vec<char>, lo: usize, hi: usize) -> (r: Option<(usize, usize, usize, usize)>)
    requires
        lo <= hi <= v.len(),
    ensures
        match r {
            Some((i1, i2, i3, i4)) => {
                &&& lo <= i1 < i2 < i3 < i4 < hi
                &&& split_path(v@.subrange(lo as int, hi as int)) == Some(
                    (
                        v@.subrange(lo as int, i1 as int),
                        v@.subrange(i1 + 1, i2 as int),
                        v@.subrange(i2 + 1, i3 as int),
                        v@.subrange(i3 + 1, i4 as int),
                        v@.subrange(i4 + 1, hi as int),
                    ),
                )
            },
            None => split_path(v@.subrange(lo as int, hi as int)) is None,
        },
{
    let ghost p = v@.subrange(lo as int, hi as int);
    let i1 = find_char(v, '/', lo, hi);
    proof {
        lemma_find_from_window(v@, '/', lo as int, hi as int, 0);
    }
    if i1 == hi {
        assert(find_from(p, '/', p.len() + 1int) == p.len());
        assert(find_from(p, '/', p.len() + 2int) == p.len());
        return None;
    }
    let i2 = find_char(v, '/', i1 + 1, hi);
    proof {
        lemma_find_from_window(v@, '/', lo as int, hi as int, i1 + 1 - lo);
    }
    if i2 == hi {
        assert(find_from(p, '/', p.len() + 1int) == p.len());
        return None;
    }
    let i3 = find_char(v, '/', i2 + 1, hi);
    proof {
        lemma_find_from_window(v@, '/', lo as int, hi as int, i2 + 1 - lo);
    }
    if i3 == hi {
        assert(find_from(p, '/', p.len() + 1int) == p.len());
        return None;
    }
    let i4 = find_char(v, '/', i3 + 1, hi);
    proof {
        lemma_find_from_window(v@, '/', lo as int, hi as int, i3 + 1 - lo);
    }
    if i4 == hi {
        return None;
    }
    assert(p.subrange(0, i1 - lo) =~= v@.subrange(lo as int, i1 as int));
    assert(p.subrange(i1 - lo + 1, i2 - lo) =~= v@.subrange(i1 + 1, i2 as int));
    assert(p.subrange(i2 - lo + 1, i3 - lo) =~= v@.subrange(i2 + 1, i3 as int));
    assert(p.subrange(i3 - lo + 1, i4 - lo) =~= v@.subrange(i3 + 1, i4 as int));
    assert(p.subrange(i4 - lo + 1, p.len() as int) =~= v@.subrange(i4 + 1, hi as int));
    Some((i1, i2, i3, i4))
}

/// Parse the blob URL `v[lo..hi]`.
fn parse_blob_ref_at(v: &Vec<char>, lo: usize, hi: usize) -> (r: Option<GithubBlobLineReference>)
    requires
        lo <= hi <= v.len(),
    ensures
        opt_blob_view(r) == spec_blob_ref(v@.subrange(lo as int, hi as int)),
{
    let (a, b) = trim_bounds(v, lo, hi);
    let ghost u = v@.subrange(a as int, b as int);
    let https = chars_of("https://github.com/");
    let http = chars_of("http://github.com/");
    let rest_lo = if slice_starts_with(v, a, b, &https) {
        a + https.len()
    } else if slice_starts_with(v, a, b, &http) {
        a + http.len()
    } else {
        return None;
    };
    let ghost rest = v@.subrange(rest_lo as int, b as int);
    assert(strip_github_prefix(u) == Some(rest)) by {
        assert(u.subrange(rest_lo - a, u.len() as int) =~= rest);
    }
    let hash = find_char(v, '#', rest_lo, b);
    proof {
        lemma_find_from_window(v@, '#', rest_lo as int, b as int, 0);
    }
    if hash == b {
        return None;
    }
    assert(rest.subrange(0, hash - rest_lo) =~= v@.subrange(rest_lo as int, hash as int));
    assert(rest.subrange(hash - rest_lo + 1, rest.len() as int) =~= v@.subrange(
        hash + 1,
        b as int,
    ));
    let parts = split_path_at(v, rest_lo, hash);
    let lines = parse_line_fragment(v, hash + 1, b);
    match (parts, lines) {
        (Some((i1, i2, i3, i4)), Some((start_line, end_line))) => {
            let blob = chars_of("blob");
            if !slice_eq(v, i2 + 1, i3, &blob) || i1 == rest_lo || i2 == i1 + 1 || i4 == i3 + 1
                || hash == i4 + 1 {
                return None;
            }
            Some(
                GithubBlobLineReference {
                    url: string_of(v, a, b),
                    owner: string_of(v, rest_lo, i1),
                    repo: string_of(v, i1 + 1, i2),
                    reference: string_of(v, i3 + 1, i4),
                    path: string_of(v, i4 + 1, hash),
                    start_line,
                    end_line,
                },
            )
        },
        _ => None,
    }
}

/// Parse a GitHub blob URL into its components with line reference.
///
/// Handles URLs like `https://github.com/owner/repo/blob/ref/path/to/file#L10`
/// and `...#L10-L20`.
pub fn parse_github_blob_line_reference(url: &str) -> (r: Option<GithubBlobLineReference>)
    ensures
        opt_blob_view(r) == spec_blob_ref(url@),
{
    let v = chars_of(url);
    assert(v@.subrange(0, v@.len() as int) =~= v@);
    parse_blob_ref_at(&v, 0, v.len())
}

/// Punctuation stripped around words before they are read as URLs.
pub open spec fn is_bracket(c: char) -> bool {
    c == '(' || c == ')' || c == '<' || c == '>'
}

/// Index of the first non-bracket character at or after `i` (or `s.len()`).
pub open spec fn skip_brackets_from(s: Seq<char>, i: int) -> int
    decreases s.len() - i,
{
    if i < 0 || i >= s.len() {
        s.len() as int
    } else if !is_bracket(s[i]) {
        i
    } else {
        skip_brackets_from(s, i + 1)
    }
}

/// End of the text before the trailing brackets within `s[..j]`.
pub open spec fn bracket_end_at(s: Seq<char>, j: int) -> int
    decreases j,
{
    if j <= 0 || j > s.len() {
        0
    } else if !is_bracket(s[j - 1]) {
        j
    } else {
        bracket_end_at(s, j - 1)
    }
}

/// `str::trim_matches` of the bracket characters.
pub open spec fn strip_brackets(s: Seq<char>) -> Seq<char> {
    let a = skip_brackets_from(s, 0);
    let b = bracket_end_at(s, s.len() as int);
    if a < b {
        s.subrange(a, b)
    } else {
        Seq::empty()
    }
}

proof fn lemma_skip_brackets_bounds(s: Seq<char>, i: int)
    requires
        0 <= i <= s.len(),
    ensures
        i <= skip_brackets_from(s, i) <= s.len(),
    decreases s.len() - i,
{
    if i < s.len() && is_bracket(s[i]) {
        lemma_skip_brackets_bounds(s, i + 1);
    }
}

proof fn lemma_bracket_end_at(s: Seq<char>, j: int)
    requires
        0 <= j <= s.len(),
    ensures
        0 <= bracket_end_at(s, j) <= j,
        bracket_end_at(s, j) > 0 ==> !is_bracket(s[bracket_end_at(s, j) - 1]),
    decreases j,
{
    if j > 0 && is_bracket(s[j - 1]) {
        lemma_bracket_end_at(s, j - 1);
    }
}

/// Bounds of `strip_brackets(v[lo..hi])` within `v`.
fn bracket_bounds(v: &Vec<char>, lo: usize, hi: usize) -> (r: (usize, usize))
    requires
        lo <= hi <= v.len(),
    ensures
        lo <= r.0 <= r.1 <= hi,
        v@.subrange(r.0 as int, r.1 as int) == strip_brackets(v@.subrange(lo as int, hi as int)),
{
    let ghost s = v@.subrange(lo as int, hi as int);
    let mut a = lo;
    while a < hi && (v[a] == '(' || v[a] == ')' || v[a] == '<' || v[a] == '>')
        invariant
            lo <= a <= hi <= v.len(),
            s == v@.subrange(lo as int, hi as int),
            skip_brackets_from(s, 0) == skip_brackets_from(s, a - lo),
        decreases hi - a,
    {
        a = a + 1;
    }
    let mut b = hi;
    while b > a && (v[b - 1] == '(' || v[b - 1] == ')' || v[b - 1] == '<' || v[b - 1] == '>')
        invariant
            lo <= a <= b <= hi <= v.len(),
            s == v@.subrange(lo as int, hi as int),
            skip_brackets_from(s, 0) == a - lo,
            bracket_end_at(s, s.len() as int) == bracket_end_at(s, b - lo),
        decreases b - a,
    {
        b = b - 1;
    }
    proof {
        lemma_skip_brackets_bounds(s, 0);
        lemma_bracket_end_at(s, s.len() as int);
        lemma_bracket_end_at(s, b - lo);
        if b > a {
            assert(bracket_end_at(s, b - lo) == b - lo);
            assert(v@.subrange(a as int, b as int) =~= s.subrange(a - lo, b - lo));
        } else {
            if a < hi {
                assert(!is_bracket(s[a - lo]));
            }
            assert(v@.subrange(a as int, b as int) =~= Seq::<char>::empty());
        }
    }
    (a, b)
}

/// The blob references among `words`, in order.
pub open spec fn refs_in_words(words: Seq<Seq<char>>) -> Seq<BlobRefV>
    decreases words.len(),
{
    if words.len() == 0 {
        Seq::empty()
    } else {
        let rest = refs_in_words(words.subrange(1, words.len() as int));
        match spec_blob_ref(strip_brackets(words[0])) {
            Some(r) => seq![r] + rest,
            None => rest,
        }
    }
}

/// The views of a sequence of blob references.
pub open spec fn blob_refs_view(s: Seq<GithubBlobLineReference>) -> Seq<BlobRefV> {
    s.map_values(|r: GithubBlobLineReference| r@)
}

/// Extract all GitHub blob line references from a markdown text: every
/// whitespace-separated word, stripped of surrounding `(`, `)`, `<`, `>`,
/// that parses as a blob line reference.
pub fn extract_github_blob_line_references(text: &str) -> (r: Vec<GithubBlobLineReference>)
    ensures
        blob_refs_view(r@) == refs_in_words(words_from(text@, 0)),
{
    let v = chars_of(text);
    let n = v.len();
    let mut r: Vec<GithubBlobLineReference> = Vec::new();
    let mut i: usize = 0;
    while i < n
        invariant
            n == v.len(),
            v@ == text@,
            i <= n,
            blob_refs_view(r@) + refs_in_words(words_from(v@, i as int)) == refs_in_words(
                words_from(v@, 0),
            ),
        decreases n - i,
    {
        let a = skip_ws(&v, i);
        proof {
            crate::text::lemma_skip_ws_from_bounds(v@, i as int);
        }
        if a >= n {
            assert(words_from(v@, i as int) =~= Seq::<Seq<char>>::empty());
            assert(refs_in_words(words_from(v@, i as int)) =~= Seq::<BlobRefV>::empty());
            assert(blob_refs_view(r@) + Seq::<BlobRefV>::empty() =~= blob_refs_view(r@));
            return r;
        }
        let b = find_ws(&v, a);
        proof {
            lemma_ws_from_bounds_pub(v@, a as int);
        }
        let ghost w = v@.subrange(a as int, b as int);
        let ghost ws = words_from(v@, i as int);
        assert(ws == seq![w] + words_from(v@, b as int));
        assert(ws.subrange(1, ws.len() as int) =~= words_from(v@, b as int));
        let (c, d) = bracket_bounds(&v, a, b);
        let ghost old_r = r@;
        match parse_blob_ref_at(&v, c, d) {
            Some(x) => {
                r.push(x);
                assert(blob_refs_view(r@) =~= blob_refs_view(old_r).push(x@));
            },
            None => {},
        }
        assert(blob_refs_view(r@) + refs_in_words(words_from(v@, b as int)) =~= blob_refs_view(
            old_r,
        ) + refs_in_words(ws));
        i = b;
    }
    assert(words_from(v@, n as int) =~= Seq::<Seq<char>>::empty());
    assert(refs_in_words(words_from(v@, n as int)) =~= Seq::<BlobRefV>::empty());
    assert(blob_refs_view(r@) + Seq::<BlobRefV>::empty() =~= blob_refs_view(r@));
    r
}

proof fn lemma_ws_from_bounds_pub(s: Seq<char>, a: int)
    requires
        0 <= a < s.len(),
        !crate::text::is_ws(s[a]),
    ensures
        a < crate::text::ws_from(s, a) <= s.len(),
{
    crate::text::lemma_ws_from_bounds(s, a);
}

/// End of the run of ASCII digits starting at `k`.
pub open spec fn digits_end(t: Seq<char>, k: int) -> int
    decreases t.len() - k,
{
    if k < 0 || k >= t.len() || !is_digit(t[k]) {
        k
    } else {
        digits_end(t, k + 1)
    }
}

pub proof fn lemma_digits_end(t: Seq<char>, k: int)
    requires
        0 <= k <= t.len(),
    ensures
        k <= digits_end(t, k) <= t.len(),
        forall|m: int| k <= m < digits_end(t, k) ==> is_digit(#[trigger] t[m]),
        digits_end(t, k) < t.len() ==> !is_digit(t[digits_end(t, k)]),
    decreases t.len() - k,
{
    if k < t.len() && is_digit(t[k]) {
        lemma_digits_end(t, k + 1);
    }
}

/// An issue reference `#` + digits starts at `i`: the `#` is at the start or
/// after a character that is neither alphanumeric (in Unicode terms) nor `&`,
/// at least one digit follows, and the digits are not followed by an ASCII
/// letter or digit.
pub open spec fn is_issue_ref(t: Seq<char>, i: int) -> bool {
    &&& 0 <= i < t.len()
    &&& t[i] == '#'
    &&& (i == 0 || !(alphanumeric(t[i - 1]) || t[i - 1] == '&'))
    &&& digits_end(t, i + 1) > i + 1
    &&& (digits_end(t, i + 1) >= t.len() || !is_alnum(t[digits_end(t, i + 1)]))
}

/// The link an issue reference becomes.
pub open spec fn issue_link(owner: Seq<char>, repo: Seq<char>, number: Seq<char>) -> InlineV {
    InlineV::Link {
        url: "https://github.com/"@ + owner + "/"@ + repo + "/issues/"@ + number,
        title: None,
        content: seq![InlineV::Text(seq!['#'] + number)],
    }
}

/// `t[last..]` split at the issue references found from position `i` on:
/// the text between references stays text (empty pieces are dropped), each
/// reference becomes [`issue_link`].
pub open spec fn split_refs_from(
    t: Seq<char>,
    owner: Seq<char>,
    repo: Seq<char>,
    i: int,
    last: int,
) -> Seq<InlineV>
    decreases t.len() - i,
{
    if i < 0 || i >= t.len() {
        if 0 <= last < t.len() {
            seq![InlineV::Text(t.subrange(last, t.len() as int))]
        } else {
            Seq::empty()
        }
    } else if is_issue_ref(t, i) {
        let j = digits_end(t, i + 1);
        proof {
            lemma_digits_end(t, i + 1);
        }
        (if i > last {
            seq![InlineV::Text(t.subrange(last, i))]
        } else {
            Seq::empty()
        }) + seq![issue_link(owner, repo, t.subrange(i + 1, j))] + split_refs_from(
            t,
            owner,
            repo,
            j,
            j,
        )
    } else {
        split_refs_from(t, owner, repo, i + 1, last)
    }
}

/// Issue-reference expansion of one inline: text is split at references,
/// strong/emphasis/strikethrough nodes are expanded inside, everything else
/// (code, links, images, breaks) is kept as is.
pub open spec fn expand_one(x: InlineV, owner: Seq<char>, repo: Seq<char>) -> Seq<InlineV>
    decreases x,
{
    match x {
        InlineV::Text(t) => split_refs_from(t, owner, repo, 0, 0),
        InlineV::Strong(c) => seq![InlineV::Strong(expand_seq(c, owner, repo))],
        InlineV::Emphasis(c) => seq![InlineV::Emphasis(expand_seq(c, owner, repo))],
        InlineV::Strikethrough(c) => seq![InlineV::Strikethrough(expand_seq(c, owner, repo))],
        _ => seq![x],
    }
}

/// Issue-reference expansion of a sequence of inlines, element by element.
pub open spec fn expand_seq(s: Seq<InlineV>, owner: Seq<char>, repo: Seq<char>) -> Seq<InlineV>
    decreases s,
{
    if s.len() == 0 {
        Seq::empty()
    } else {
        expand_seq(s.subrange(0, s.len() - 1), owner, repo) + expand_one(
            s[s.len() - 1],
            owner,
            repo,
        )
    }
}

proof fn lemma_split_refs_plain(t: Seq<char>, o: Seq<char>, r: Seq<char>, i: int, last: int)
    requires
        0 <= last <= i <= t.len(),
    ensures
        plain_seq(split_refs_from(t, o, r, i, last)) == t.subrange(last, t.len() as int),
    decreases t.len() - i,
{
    if i >= t.len() {
        if last < t.len() {
            let x = InlineV::Text(t.subrange(last, t.len() as int));
            lemma_plain_seq_push(Seq::empty(), x);
            assert(Seq::<InlineV>::empty().push(x) =~= seq![x]);
        } else {
            assert(t.subrange(last, t.len() as int) =~= Seq::<char>::empty());
        }
    } else if is_issue_ref(t, i) {
        let j = digits_end(t, i + 1);
        lemma_digits_end(t, i + 1);
        lemma_split_refs_plain(t, o, r, j, j);
        let pre: Seq<InlineV> = if i > last {
            seq![InlineV::Text(t.subrange(last, i))]
        } else {
            Seq::empty()
        };
        let link = issue_link(o, r, t.subrange(i + 1, j));
        let rest = split_refs_from(t, o, r, j, j);
        assert(split_refs_from(t, o, r, i, last) == pre + seq![link] + rest);
        lemma_plain_seq_concat(pre + seq![link], rest);
        lemma_plain_seq_concat(pre, seq![link]);
        lemma_plain_seq_push(Seq::empty(), link);
        assert(Seq::<InlineV>::empty().push(link) =~= seq![link]);
        let lc = seq![InlineV::Text(seq!['#'] + t.subrange(i + 1, j))];
        lemma_plain_seq_push(Seq::empty(), lc[0]);
        assert(Seq::<InlineV>::empty().push(lc[0]) =~= lc);
        if i > last {
            lemma_plain_seq_push(Seq::empty(), pre[0]);
            assert(Seq::<InlineV>::empty().push(pre[0]) =~= pre);
        }
        assert(t.subrange(last, t.len() as int) =~= t.subrange(last, i) + seq!['#'] + t.subrange(
            i + 1,
            j,
        ) + t.subrange(j, t.len() as int));
    } else {
        lemma_split_refs_plain(t, o, r, i + 1, last);
    }
}

/// Expanding issue references keeps the plain text of one inline.
pub proof fn lemma_expand_one_keeps_plain_text(x: InlineV, o: Seq<char>, r: Seq<char>)
    ensures
        plain_seq(expand_one(x, o, r)) == plain_one(x),
    decreases x,
{
    match x {
        InlineV::Text(t) => {
            lemma_split_refs_plain(t, o, r, 0, 0);
            assert(t.subrange(0, t.len() as int) =~= t);
        },
        InlineV::Strong(c) => {
            lemma_expand_keeps_plain_text(c, o, r);
            lemma_plain_seq_push(Seq::empty(), InlineV::Strong(expand_seq(c, o, r)));
            assert(Seq::<InlineV>::empty().push(InlineV::Strong(expand_seq(c, o, r))) =~= expand_one(
                x,
                o,
                r,
            ));
        },
        InlineV::Emphasis(c) => {
            lemma_expand_keeps_plain_text(c, o, r);
            lemma_plain_seq_push(Seq::empty(), InlineV::Emphasis(expand_seq(c, o, r)));
            assert(Seq::<InlineV>::empty().push(InlineV::Emphasis(expand_seq(c, o, r)))
                =~= expand_one(x, o, r));
        },
        InlineV::Strikethrough(c) => {
            lemma_expand_keeps_plain_text(c, o, r);
            lemma_plain_seq_push(Seq::empty(), InlineV::Strikethrough(expand_seq(c, o, r)));
            assert(Seq::<InlineV>::empty().push(InlineV::Strikethrough(expand_seq(c, o, r)))
                =~= expand_one(x, o, r));
        },
        _ => {
            lemma_plain_seq_push(Seq::empty(), x);
            assert(Seq::<InlineV>::empty().push(x) =~= expand_one(x, o, r));
        },
    }
}

/// Expanding issue references keeps the plain text of the inlines: only
/// `#123` text becomes links whose text is `#123`.
pub proof fn lemma_expand_keeps_plain_text(s: Seq<InlineV>, o: Seq<char>, r: Seq<char>)
    ensures
        plain_seq(expand_seq(s, o, r)) == plain_seq(s),
    decreases s,
{
    if s.len() > 0 {
        let p = s.subrange(0, s.len() - 1);
        let x = s[s.len() - 1];
        lemma_expand_keeps_plain_text(p, o, r);
        lemma_expand_one_keeps_plain_text(x, o, r);
        lemma_plain_seq_concat(expand_seq(p, o, r), expand_one(x, o, r));
        assert(s =~= p.push(x));
        lemma_plain_seq_push(p, x);
    }
}

/// Split a text at `#\d+` references, emitting `Text` and `Link` inlines.
fn split_issue_refs(text: &String, ctx: &GithubIssueReferenceContext, out: &mut Vec<Inline>)
    ensures
        inlines_view(final(out)@) == inlines_view(old(out)@) + split_refs_from(
            text@,
            ctx.owner@,
            ctx.repo@,
            0,
            0,
        ),
{
    let ghost o = ctx.owner@;
    let ghost rp = ctx.repo@;
    let v = chars_of(text.as_str());
    let n = v.len();
    let ghost t = v@;
    let mut last: usize = 0;
    let mut i: usize = 0;
    while i < n
        invariant
            n == v.len(),
            t == v@,
            t == text@,
            o == ctx.owner@,
            rp == ctx.repo@,
            last <= i <= n,
            inlines_view(out@) + split_refs_from(t, o, rp, i as int, last as int) == inlines_view(
                old(out)@,
            ) + split_refs_from(t, o, rp, 0, 0),
        decreases n - i,
    {
        if v[i] == '#' && (i == 0 || !(is_alphanumeric(v[i - 1]) || v[i - 1] == '&')) {
            let mut j = i + 1;
            while j < n && '0' <= v[j] && v[j] <= '9'
                invariant
                    i + 1 <= j <= n,
                    n == v.len(),
                    t == v@,
                    digits_end(t, i + 1) == digits_end(t, j as int),
                decreases n - j,
            {
                j = j + 1;
            }
            if j > i + 1 && !(j < n && char_is_alnum(v[j])) {
                assert(is_issue_ref(t, i as int));
                let ghost before = inlines_view(out@);
                let ghost pre: Seq<InlineV> = if i > last {
                    seq![InlineV::Text(t.subrange(last as int, i as int))]
                } else {
                    Seq::empty()
                };
                if i > last {
                    let piece = Inline::Text(string_of(&v, last, i));
                    let ghost o1 = out@;
                    out.push(piece);
                    proof {
                        lemma_inlines_view_push(o1, piece);
                    }
                }
                assert(inlines_view(out@) == before + pre);
                let mut url = String::new();
                push_str(&mut url, "https://github.com/");
                push_str(&mut url, ctx.owner.as_str());
                push_str(&mut url, "/");
                push_str(&mut url, ctx.repo.as_str());
                push_str(&mut url, "/issues/");
                push_chars(&mut url, &v, i + 1, j);
                let mut display = String::new();
                crate::text::push_char(&mut display, '#');
                push_chars(&mut display, &v, i + 1, j);
                let mut content: Vec<Inline> = Vec::new();
                content.push(Inline::Text(display));
                let link = Inline::Link { url, title: None, content };
                proof {
                    lemma_inlines_view_push(Seq::<Inline>::empty(), content@[0]);
                    assert(content@ =~= Seq::<Inline>::empty().push(content@[0]));
                    assert(inlines_view(Seq::<Inline>::empty()) =~= Seq::<InlineV>::empty());
                    assert(inline_view(link) == issue_link(o, rp, t.subrange(i + 1, j as int)));
                }
                let ghost o2 = out@;
                out.push(link);
                proof {
                    lemma_inlines_view_push(o2, link);
                    assert(inlines_view(out@) + split_refs_from(t, o, rp, j as int, j as int)
                        =~= before + split_refs_from(t, o, rp, i as int, last as int));
                }
                last = j;
                i = j;
                continue;
            } else {
                assert(!is_issue_ref(t, i as int));
            }
        } else {
            assert(!is_issue_ref(t, i as int));
        }
        i = i + 1;
    }
    if last < n {
        let piece = Inline::Text(string_of(&v, last, n));
        let ghost o1 = out@;
        out.push(piece);
        proof {
            lemma_inlines_view_push(o1, piece);
        }
    } else {
        assert(inlines_view(out@) + Seq::<InlineV>::empty() =~= inlines_view(out@));
    }
}

/// Expand `#123` issue references in a list of inlines.
///
/// Only `Inline::Text` nodes are scanned; strong, emphasis and
/// strikethrough nodes are processed recursively, while code spans and
/// existing links are left untouched.
pub fn expand_issue_references(inlines: &[Inline], ctx: &GithubIssueReferenceContext) -> (r: Vec<
    Inline,
>)
    ensures
        inlines_view(r@) == expand_seq(inlines_view(inlines@), ctx.owner@, ctx.repo@),
    decreases inlines@,
{
    let mut result: Vec<Inline> = Vec::new();
    let mut k: usize = 0;
    while k < inlines.len()
        invariant
            k <= inlines.len(),
            inlines_view(result@) == expand_seq(
                inlines_view(inlines@.subrange(0, k as int)),
                ctx.owner@,
                ctx.repo@,
            ),
        decreases inlines.len() - k,
    {
        let ghost before = inlines_view(result@);
        proof {
            lemma_inlines_view_prefix(inlines@, k as int);
            let pv = inlines_view(inlines@.subrange(0, k + 1));
            assert(pv.subrange(0, pv.len() - 1) =~= inlines_view(inlines@.subrange(0, k as int)));
        }
        match &inlines[k] {
            Inline::Text(text) => {
                split_issue_refs(text, ctx, &mut result);
            },
            Inline::Strong(children) => {
                assert(decreases_to!(inlines@ => children@));
                let c = expand_issue_references(children.as_slice(), ctx);
                let ghost o1 = result@;
                let x = Inline::Strong(c);
                result.push(x);
                proof {
                    lemma_inlines_view_push(o1, x);
                }
            },
            Inline::Emphasis(children) => {
                assert(decreases_to!(inlines@ => children@));
                let c = expand_issue_references(children.as_slice(), ctx);
                let ghost o1 = result@;
                let x = Inline::Emphasis(c);
                result.push(x);
                proof {
                    lemma_inlines_view_push(o1, x);
                }
            },
            Inline::Strikethrough(children) => {
                assert(decreases_to!(inlines@ => children@));
                let c = expand_issue_references(children.as_slice(), ctx);
                let ghost o1 = result@;
                let x = Inline::Strikethrough(c);
                result.push(x);
                proof {
                    lemma_inlines_view_push(o1, x);
                }
            },
            other => {
                let x = other.clone();
                let ghost o1 = result@;
                result.push(x);
                proof {
                    lemma_inlines_view_push(o1, x);
                }
            },
        }
        proof {
            let pv = inlines_view(inlines@.subrange(0, k + 1));
            assert(pv[pv.len() - 1] == inline_view(inlines@[k as int]));
            assert(inlines_view(result@) == before + expand_one(
                inline_view(inlines@[k as int]),
                ctx.owner@,
                ctx.repo@,
            ));
        }
        k = k + 1;
    }
    assert(inlines@.subrange(0, inlines@.len() as int) =~= inlines@);
    result
}

/// Dropping a non-matching first character shifts `find_from` by one.
proof fn lemma_find_from_drop(s: Seq<char>, c: char)
    requires
        s.len() > 0,
        s[0] != c,
    ensures
        find_from(s, c, 0) == find_from(s.subrange(1, s.len() as int), c, 0) + 1,
{
    lemma_find_from_offset(s, c, 1);
}

proof fn lemma_find_from_offset(s: Seq<char>, c: char, i: int)
    requires
        1 <= i <= s.len(),
    ensures
        find_from(s, c, i) == find_from(s.subrange(1, s.len() as int), c, i - 1) + 1,
    decreases s.len() - i,
{
    if i < s.len() && s[i] != c {
        lemma_find_from_offset(s, c, i + 1);
    }
}

/// A non-empty run of ASCII digits.
pub open spec fn is_number(n: Seq<char>) -> bool {
    n.len() > 0 && forall|k: int| 0 <= k < n.len() ==> is_digit(#[trigger] n[k])
}

/// A piece of an expanded text: text, or the link of an issue number.
pub open spec fn ref_piece(x: InlineV, owner: Seq<char>, repo: Seq<char>) -> bool {
    x is Text || exists|n: Seq<char>| is_number(n) && x == #[trigger] issue_link(owner, repo, n)
}

proof fn lemma_split_refs_pieces(t: Seq<char>, o: Seq<char>, r: Seq<char>, i: int, last: int)
    ensures
        forall|j: int|
            0 <= j < split_refs_from(t, o, r, i, last).len() ==> ref_piece(
                #[trigger] split_refs_from(t, o, r, i, last)[j],
                o,
                r,
            ),
    decreases t.len() - i,
{
    let res = split_refs_from(t, o, r, i, last);
    if i < 0 || i >= t.len() {
        assert forall|m: int| 0 <= m < res.len() implies ref_piece(#[trigger] res[m], o, r) by {
            assert(res[m] is Text);
        }
    } else if is_issue_ref(t, i) {
        let j = digits_end(t, i + 1);
        lemma_digits_end(t, i + 1);
        let n = t.subrange(i + 1, j);
        assert(is_number(n));
        let link = issue_link(o, r, n);
        assert(ref_piece(link, o, r));
        lemma_split_refs_pieces(t, o, r, j, j);
        let pre = if i > last {
            seq![InlineV::Text(t.subrange(last, i))]
        } else {
            Seq::<InlineV>::empty()
        };
        let rest = split_refs_from(t, o, r, j, j);
        assert(res == pre + seq![link] + rest);
        assert forall|m: int| 0 <= m < res.len() implies ref_piece(#[trigger] res[m], o, r) by {
            if m < pre.len() {
                assert(res[m] == pre[m]);
            } else if m == pre.len() {
                assert(res[m] == link);
            } else {
                assert(res[m] == rest[m - pre.len() - 1]);
            }
        }
    } else {
        lemma_split_refs_pieces(t, o, r, i + 1, last);
        assert(res == split_refs_from(t, o, r, i + 1, last));
    }
}

/// What issue-reference expansion does to one inline: a text becomes texts
/// and links of the form `https://github.com/{owner}/{repo}/issues/{n}` with
/// no title and content `#{n}`, for a run of digits `n`; strong, emphasis and
/// strikethrough keep their kind with their content expanded; code, links,
/// images and breaks are kept unchanged.
pub proof fn lemma_expand_one_shape(x: InlineV, o: Seq<char>, r: Seq<char>)
    ensures
        match x {
            InlineV::Text(_) => forall|j: int|
                0 <= j < expand_one(x, o, r).len() ==> ref_piece(#[trigger] expand_one(x, o, r)[j], o, r),
            InlineV::Strong(c) => expand_one(x, o, r) == seq![InlineV::Strong(expand_seq(c, o, r))],
            InlineV::Emphasis(c) => expand_one(x, o, r) == seq![InlineV::Emphasis(expand_seq(c, o, r))],
            InlineV::Strikethrough(c) => expand_one(x, o, r) == seq![
                InlineV::Strikethrough(expand_seq(c, o, r)),
            ],
            _ => expand_one(x, o, r) == seq![x],
        },
{
    if let InlineV::Text(t) = x {
        lemma_split_refs_pieces(t, o, r, 0, 0);
    }
}

/// Expansion works inline by inline, in order: the expansion of a
/// concatenation is the concatenation of the expansions.
pub proof fn lemma_expand_concat(a: Seq<InlineV>, b: Seq<InlineV>, o: Seq<char>, r: Seq<char>)
    ensures
        expand_seq(a + b, o, r) == expand_seq(a, o, r) + expand_seq(b, o, r),
    decreases b.len(),
{
    if b.len() == 0 {
        assert(a + b =~= a);
        assert(expand_seq(a, o, r) + expand_seq(b, o, r) =~= expand_seq(a, o, r));
    } else {
        let b0 = b.subrange(0, b.len() - 1);
        lemma_expand_concat(a, b0, o, r);
        assert((a + b).subrange(0, (a + b).len() - 1) =~= a + b0);
        assert((a + b)[(a + b).len() - 1] == b[b.len() - 1]);
        assert(expand_seq(a + b, o, r) =~= expand_seq(a, o, r) + expand_seq(b, o, r));
    }
}

/// Issue-reference expansion keeps the plain text, works inline by inline
/// in order, turns each text into texts and links of the form
/// `https://github.com/{owner}/{repo}/issues/{n}` (no title, content `#{n}`,
/// `n` a run of digits), expands inside strong, emphasis and strikethrough,
/// and copies code, links, images and breaks unchanged.
pub proof fn lemma_expand_issue_references(s: Seq<InlineV>, o: Seq<char>, r: Seq<char>)
    ensures
        plain_seq(expand_seq(s, o, r)) == plain_seq(s),
        forall|i: int|
            0 <= i < s.len() ==> expand_seq(s, o, r) == expand_seq(s.subrange(0, i), o, r)
                + #[trigger] expand_one(s[i], o, r) + expand_seq(
                s.subrange(i + 1, s.len() as int),
                o,
                r,
            ),
        forall|i: int, j: int|
            0 <= i < s.len() && s[i] is Text && 0 <= j < expand_one(s[i], o, r).len() ==> ref_piece(
                #[trigger] expand_one(s[i], o, r)[j],
                o,
                r,
            ),
        forall|i: int|
            0 <= i < s.len() && !(s[i] is Text || s[i] is Strong || s[i] is Emphasis
                || s[i] is Strikethrough) ==> #[trigger] expand_one(s[i], o, r) == seq![s[i]],
        forall|i: int|
            0 <= i < s.len() && s[i] is Strong ==> #[trigger] expand_one(s[i], o, r) == seq![
                InlineV::Strong(expand_seq(s[i]->Strong_0, o, r)),
            ],
        forall|i: int|
            0 <= i < s.len() && s[i] is Emphasis ==> #[trigger] expand_one(s[i], o, r) == seq![
                InlineV::Emphasis(expand_seq(s[i]->Emphasis_0, o, r)),
            ],
        forall|i: int|
            0 <= i < s.len() && s[i] is Strikethrough ==> #[trigger] expand_one(s[i], o, r) == seq![
                InlineV::Strikethrough(expand_seq(s[i]->Strikethrough_0, o, r)),
            ],
{
    lemma_expand_keeps_plain_text(s, o, r);
    assert forall|i: int|
        0 <= i < s.len() implies expand_seq(s, o, r) == expand_seq(s.subrange(0, i), o, r)
            + #[trigger] expand_one(s[i], o, r) + expand_seq(s.subrange(i + 1, s.len() as int), o, r) by {
        let a = s.subrange(0, i);
        let b = s.subrange(i + 1, s.len() as int);
        assert(s =~= a + seq![s[i]] + b);
        lemma_expand_concat(a + seq![s[i]], b, o, r);
        lemma_expand_concat(a, seq![s[i]], o, r);
        let one = seq![s[i]];
        assert(one.subrange(0, 0) =~= Seq::<InlineV>::empty());
        assert(expand_seq(Seq::<InlineV>::empty(), o, r) =~= Seq::<InlineV>::empty());
        assert(one[0] == s[i]);
        assert(expand_seq(one, o, r) == expand_seq(one.subrange(0, 0), o, r) + expand_one(one[0], o, r));
        assert(expand_seq(one, o, r) =~= expand_one(s[i], o, r));
    }
    assert forall|i: int, j: int|
        0 <= i < s.len() && s[i] is Text && 0 <= j < expand_one(s[i], o, r).len() implies ref_piece(
            #[trigger] expand_one(s[i], o, r)[j],
            o,
            r,
        ) by {
        lemma_expand_one_shape(s[i], o, r);
    }
}

// -- Laws: what gets linked and what gets read ---------------------------

/// The link an issue number `n` becomes, spelt out.
pub open spec fn issue_link_for(owner: Seq<char>, repo: Seq<char>, n: Seq<char>) -> InlineV {
    InlineV::Link {
        url: "https://github.com/"@ + owner + "/"@ + repo + "/issues/"@ + n,
        title: None,
        content: seq![InlineV::Text(seq!['#'] + n)],
    }
}

proof fn lemma_digits_run_end(t: Seq<char>, k: int, j: int)
    requires
        0 <= k <= j <= t.len(),
        forall|m: int| k <= m < j ==> '0' <= #[trigger] t[m] <= '9',
        j == t.len() || !('0' <= t[j] <= '9'),
    ensures
        digits_end(t, k) == j,
    decreases j - k,
{
    if k < j {
        lemma_digits_run_end(t, k + 1, j);
    }
}

proof fn lemma_scan_reaches(t: Seq<char>, o: Seq<char>, r: Seq<char>, p: int, last: int, i: int, j: int)
    requires
        0 <= last <= p <= i,
        i + 1 < j <= t.len(),
        t[i] == '#',
        i == 0 || !(alphanumeric(t[i - 1]) || t[i - 1] == '&'),
        forall|m: int| i < m < j ==> '0' <= #[trigger] t[m] <= '9',
        j == t.len() || !(('0' <= t[j] <= '9') || ('a' <= t[j] <= 'z') || ('A' <= t[j] <= 'Z')),
    ensures
        split_refs_from(t, o, r, p, last).contains(issue_link_for(o, r, t.subrange(i + 1, j))),
    decreases i - p,
{
    let res = split_refs_from(t, o, r, p, last);
    let want = issue_link_for(o, r, t.subrange(i + 1, j));
    lemma_digits_run_end(t, i + 1, j);
    if p == i {
        assert(is_issue_ref(t, i));
        let pre = if i > last {
            seq![InlineV::Text(t.subrange(last, i))]
        } else {
            Seq::<InlineV>::empty()
        };
        let rest = split_refs_from(t, o, r, j, j);
        assert(issue_link(o, r, t.subrange(i + 1, j)) == want);
        assert(res == pre + seq![want] + rest);
        assert(res[pre.len() as int] == want);
    } else if is_issue_ref(t, p) {
        let jp = digits_end(t, p + 1);
        lemma_digits_end(t, p + 1);
        if jp > i {
            assert(is_digit(t[i]));
        }
        lemma_scan_reaches(t, o, r, jp, jp, i, j);
        let pre = if p > last {
            seq![InlineV::Text(t.subrange(last, p))]
        } else {
            Seq::<InlineV>::empty()
        };
        let rest = split_refs_from(t, o, r, jp, jp);
        assert(res == pre + seq![issue_link(o, r, t.subrange(p + 1, jp))] + rest);
        let k = choose|k: int| 0 <= k < rest.len() && rest[k] == want;
        assert(res[pre.len() + 1 + k] == want);
    } else {
        lemma_scan_reaches(t, o, r, p + 1, last, i, j);
        assert(res == split_refs_from(t, o, r, p + 1, last));
    }
}

/// A `#` at the start of a text or after a character that is neither
/// alphanumeric nor `&`, followed by a run of ASCII digits that ends the text
/// or is followed by anything but an ASCII letter or digit (a space, `.`,
/// `,`, `)`, ...), is turned into the link to that issue number.
pub proof fn lemma_issue_reference_linked(
    s: Seq<InlineV>,
    m: int,
    i: int,
    j: int,
    o: Seq<char>,
    r: Seq<char>,
)
    requires
        0 <= m < s.len(),
        s[m] is Text,
        ({
            let t = s[m]->Text_0;
            &&& 0 <= i && i + 1 < j <= t.len()
            &&& t[i] == '#'
            &&& (i == 0 || !(alphanumeric(t[i - 1]) || t[i - 1] == '&'))
            &&& forall|k: int| i < k < j ==> '0' <= #[trigger] t[k] <= '9'
            &&& (j == t.len() || !(('0' <= t[j] <= '9') || ('a' <= t[j] <= 'z') || ('A' <= t[j]
                <= 'Z')))
        }),
    ensures
        expand_seq(s, o, r).contains(issue_link_for(o, r, s[m]->Text_0.subrange(i + 1, j))),
{
    let t = s[m]->Text_0;
    let want = issue_link_for(o, r, t.subrange(i + 1, j));
    lemma_scan_reaches(t, o, r, 0, 0, i, j);
    lemma_expand_issue_references(s, o, r);
    let a = expand_seq(s.subrange(0, m), o, r);
    let e = expand_one(s[m], o, r);
    assert(e == split_refs_from(t, o, r, 0, 0));
    let k = choose|k: int| 0 <= k < e.len() && e[k] == want;
    assert(expand_seq(s, o, r) == a + e + expand_seq(s.subrange(m + 1, s.len() as int), o, r));
    assert(expand_seq(s, o, r)[a.len() + k] == want);
}

proof fn lemma_skip_open_brackets(w: Seq<char>, p: int)
    requires
        0 <= p < w.len(),
        forall|k: int| 0 <= k < p ==> (w[k] == '(' || w[k] == ')' || w[k] == '<' || w[k] == '>'),
        !(w[p] == '(' || w[p] == ')' || w[p] == '<' || w[p] == '>'),
    ensures
        skip_brackets_from(w, 0) == p,
{
    lemma_skip_from(w, 0, p);
}

proof fn lemma_skip_from(w: Seq<char>, k: int, p: int)
    requires
        0 <= k <= p < w.len(),
        forall|m: int| 0 <= m < p ==> (w[m] == '(' || w[m] == ')' || w[m] == '<' || w[m] == '>'),
        !(w[p] == '(' || w[p] == ')' || w[p] == '<' || w[p] == '>'),
    ensures
        skip_brackets_from(w, k) == p,
    decreases p - k,
{
    if k < p {
        lemma_skip_from(w, k + 1, p);
    }
}

proof fn lemma_end_from(w: Seq<char>, k: int, e: int)
    requires
        0 < e <= k <= w.len(),
        forall|m: int| e <= m < w.len() ==> (w[m] == '(' || w[m] == ')' || w[m] == '<' || w[m] == '>'),
        !(w[e - 1] == '(' || w[e - 1] == ')' || w[e - 1] == '<' || w[e - 1] == '>'),
    ensures
        bracket_end_at(w, k) == e,
    decreases k - e,
{
    if k > e {
        lemma_end_from(w, k - 1, e);
    }
}

/// A word made of a URL wrapped in any number of `(`, `)`, `<` and `>` is
/// read as that URL: when the URL (which neither starts nor ends with one
/// of those) is a blob line reference, the reference is extracted.
pub proof fn lemma_bracketed_blob_reference(
    words: Seq<Seq<char>>,
    m: int,
    p: Seq<char>,
    u: Seq<char>,
    q: Seq<char>,
    x: BlobRefV,
)
    requires
        0 <= m < words.len(),
        words[m] == p + u + q,
        forall|k: int| 0 <= k < p.len() ==> (p[k] == '(' || p[k] == ')' || p[k] == '<' || p[k] == '>'),
        forall|k: int| 0 <= k < q.len() ==> (q[k] == '(' || q[k] == ')' || q[k] == '<' || q[k] == '>'),
        u.len() > 0,
        !(u[0] == '(' || u[0] == ')' || u[0] == '<' || u[0] == '>'),
        !(u.last() == '(' || u.last() == ')' || u.last() == '<' || u.last() == '>'),
        spec_blob_ref(u) == Some(x),
    ensures
        refs_in_words(words).contains(x),
    decreases m,
{
    let w = p + u + q;
    if m == 0 {
        assert forall|k: int| 0 <= k < p.len() implies (w[k] == '(' || w[k] == ')' || w[k] == '<'
            || w[k] == '>') by {
            assert(w[k] == p[k]);
        }
        assert(w[p.len() as int] == u[0]);
        lemma_skip_open_brackets(w, p.len() as int);
        let e: int = (p.len() + u.len()) as int;
        assert forall|k: int| e <= k < w.len() implies (w[k] == '(' || w[k] == ')' || w[k] == '<'
            || w[k] == '>') by {
            assert(w[k] == q[k - e]);
        }
        assert(w[e - 1] == u.last());
        lemma_end_from(w, w.len() as int, e);
        assert(strip_brackets(w) =~= u);
        assert(refs_in_words(words)[0] == x);
    } else {
        let rest = words.subrange(1, words.len() as int);
        assert(rest[m - 1] == words[m]);
        lemma_bracketed_blob_reference(rest, m - 1, p, u, q, x);
        let k = choose|k: int| 0 <= k < refs_in_words(rest).len() && refs_in_words(rest)[k] == x;
        match spec_blob_ref(strip_brackets(words[0])) {
            Some(y) => assert(refs_in_words(words)[k + 1] == x),
            None => assert(refs_in_words(words)[k] == x),
        }
    }
}

proof fn lemma_no_refs_from(t: Seq<char>, o: Seq<char>, r: Seq<char>, p: int)
    requires
        0 <= p <= t.len(),
        t.len() > 0,
        forall|q: int| p <= q < t.len() ==> !#[trigger] is_issue_ref(t, q),
    ensures
        split_refs_from(t, o, r, p, 0) == seq![InlineV::Text(t)],
    decreases t.len() - p,
{
    if p < t.len() {
        assert(!is_issue_ref(t, p));
        lemma_no_refs_from(t, o, r, p + 1);
    } else {
        assert(t.subrange(0, t.len() as int) =~= t);
    }
}

/// `t[i..j]` is `#` and a run of ASCII digits that could name an issue: the
/// `#` is at the start or after a character that is neither alphanumeric nor
/// `&`, and the digits end the text or are followed by something other than
/// an ASCII letter or digit.
pub open spec fn starts_reference(t: Seq<char>, i: int, j: int) -> bool {
    &&& 0 <= i && i + 1 < j <= t.len()
    &&& t[i] == '#'
    &&& (i == 0 || !(alphanumeric(t[i - 1]) || t[i - 1] == '&'))
    &&& (forall|k: int| i < k < j ==> '0' <= #[trigger] t[k] <= '9')
    &&& (j == t.len() || !(('0' <= t[j] <= '9') || ('a' <= t[j] <= 'z') || ('A' <= t[j] <= 'Z')))
}

/// A text in which no `#` starts a reference (every `#` follows a letter,
/// digit or `&`, is not followed by digits, or its digits run into an ASCII
/// letter or digit) is left as it is: one text node, unchanged.
pub proof fn lemma_text_without_references_unchanged(t: Seq<char>, o: Seq<char>, r: Seq<char>)
    requires
        t.len() > 0,
        forall|i: int, j: int| !#[trigger] starts_reference(t, i, j),
    ensures
        expand_one(InlineV::Text(t), o, r) == seq![InlineV::Text(t)],
{
    assert forall|q: int| 0 <= q < t.len() implies !#[trigger] is_issue_ref(t, q) by {
        if is_issue_ref(t, q) {
            let j = digits_end(t, q + 1);
            lemma_digits_end(t, q + 1);
            assert(starts_reference(t, q, j));
        }
    }
    lemma_no_refs_from(t, o, r, 0);
}

} // verus!
