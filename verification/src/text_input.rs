//! Cursor arithmetic of a plain-text input field: line, word and grapheme
//! boundaries around a byte offset, conversions between byte offsets and
//! row/column or UTF-16 positions, and the selection that a cursor drags.
//!
//! Offsets are byte offsets into the UTF-8 text; a function that slices the
//! text at an offset asks for that offset to be a character boundary.

use crate::selection::{
    char_index_at, index_of_offset, lemma_boundary_index, lemma_char_boundary, lemma_offset_full,
    lemma_offset_mono, lemma_offset_step, lemma_offset_unique, line_end, line_start, offset,
    offsets_of,
};
use crate::text::{
    char_is_ws, char_utf8_width, chars_of, is_ws, lemma_encode_len_concat, string_of,
};
use unicode_segmentation::UnicodeSegmentation;
use vstd::prelude::*;
use vstd::utf8::{encode_utf8, is_char_boundary};

verus! {

/// ASCII punctuation, as `char::is_ascii_punctuation` documents it.
pub open spec fn is_ascii_punct(c: char) -> bool {
    ||| ('!' <= c && c <= '/')
    ||| (':' <= c && c <= '@')
    ||| ('[' <= c && c <= '`')
    ||| ('{' <= c && c <= '~')
}

/// A character that separates words: whitespace or ASCII punctuation.
pub open spec fn is_sep(c: char) -> bool {
    is_ws(c) || is_ascii_punct(c)
}

fn char_is_sep(c: char) -> (r: bool)
    ensures
        r == is_sep(c),
{
    char_is_ws(c) || ('!' <= c && c <= '/') || (':' <= c && c <= '@') || ('[' <= c && c <= '`')
        || ('{' <= c && c <= '~')
}

/// Moving left from character index `k` over separators.
pub open spec fn back_over_sep(cs: Seq<char>, k: int) -> int
    decreases k,
{
    if k <= 0 || k > cs.len() || !is_sep(cs[k - 1]) {
        k
    } else {
        back_over_sep(cs, k - 1)
    }
}

/// Moving left from character index `k` over word characters.
pub open spec fn back_over_word(cs: Seq<char>, k: int) -> int
    decreases k,
{
    if k <= 0 || k > cs.len() || is_sep(cs[k - 1]) {
        k
    } else {
        back_over_word(cs, k - 1)
    }
}

/// Moving right from character index `k` over separators.
pub open spec fn fwd_over_sep(cs: Seq<char>, k: int) -> int
    decreases cs.len() - k,
{
    if k < 0 || k >= cs.len() || !is_sep(cs[k]) {
        k
    } else {
        fwd_over_sep(cs, k + 1)
    }
}

/// Moving right from character index `k` over word characters.
pub open spec fn fwd_over_word(cs: Seq<char>, k: int) -> int
    decreases cs.len() - k,
{
    if k < 0 || k >= cs.len() || is_sep(cs[k]) {
        k
    } else {
        fwd_over_word(cs, k + 1)
    }
}

proof fn lemma_back_bounds(cs: Seq<char>, k: int)
    requires
        0 <= k <= cs.len(),
    ensures
        0 <= back_over_sep(cs, k) <= k,
        0 <= back_over_word(cs, k) <= k,
    decreases k,
{
    if k > 0 {
        lemma_back_bounds(cs, k - 1);
    }
}

/// A character boundary lies within the text.
proof fn lemma_boundary_le_len(cs: Seq<char>, i: int)
    requires
        is_char_boundary(encode_utf8(cs), i),
    ensures
        0 <= i <= encode_utf8(cs).len(),
{
    let k = lemma_boundary_index(cs, i);
    lemma_offset_mono(cs, 0, k);
    lemma_offset_mono(cs, k, cs.len() as int);
    lemma_offset_full(cs);
}

/// The characters of `text`, their byte offsets, and the character index of
/// the byte offset `at`, which is a character boundary.
fn chars_and_index(text: &str, at: usize) -> (r: (Vec<char>, Vec<usize>, usize))
    requires
        is_char_boundary(encode_utf8(text@), at as int),
    ensures
        r.0@ == text@,
        r.1@.len() == text@.len() + 1,
        forall|j: int| 0 <= j <= text@.len() ==> #[trigger] r.1@[j] == offset(text@, j),
        r.2 <= text@.len(),
        r.2 == char_index_at(text@, at as int),
        offset(text@, r.2 as int) == at,
        r.1@[text@.len() as int] == encode_utf8(text@).len(),
{
    let v = chars_of(text);
    let ghost cs = v@;
    let n = text.as_bytes().len();
    proof {
        lemma_offset_full(cs);
        lemma_boundary_index(cs, at as int);
    }
    let offs = offsets_of(&v);
    let k = index_of_offset(&offs, at, Ghost(cs));
    proof {
        let kk = char_index_at(cs, at as int);
        lemma_offset_unique(cs, k as int, kk);
    }
    (v, offs, k)
}

/// Byte offset of the start of the line holding `offset`: just after the
/// previous `\n`, or 0.
pub fn line_start_offset(content: &str, offset: usize) -> (r: usize)
    requires
        is_char_boundary(encode_utf8(content@), offset as int),
    ensures
        r == line_start(encode_utf8(content@), offset as int),
{
    let bs = content.as_bytes();
    proof {
        lemma_boundary_le_len(content@, offset as int);
    }
    let mut s = offset;
    while s > 0 && bs[s - 1] != 10
        invariant
            s <= offset <= bs@.len(),
            bs@ == encode_utf8(content@),
            line_start(bs@, offset as int) == line_start(bs@, s as int),
        decreases s,
    {
        s = s - 1;
    }
    s
}

/// Byte offset of the end of the line holding `offset` (before its `\n`).
pub fn line_end_offset(content: &str, offset: usize) -> (r: usize)
    requires
        is_char_boundary(encode_utf8(content@), offset as int),
    ensures
        r == line_end(encode_utf8(content@), offset as int),
{
    let bs = content.as_bytes();
    let n = bs.len();
    proof {
        lemma_boundary_le_len(content@, offset as int);
    }
    let mut e = offset;
    while e < n && bs[e] != 10
        invariant
            offset <= e <= n == bs@.len(),
            bs@ == encode_utf8(content@),
            line_end(bs@, offset as int) == line_end(bs@, e as int),
        decreases n - e,
    {
        e = e + 1;
    }
    e
}

/// Start of the previous word: from `offset`, back over separators
/// (whitespace and ASCII punctuation), then back over the word before them.
pub fn previous_word_boundary(content: &str, offset: usize) -> (r: usize)
    requires
        is_char_boundary(encode_utf8(content@), offset as int),
    ensures
        r == crate::selection::offset(
            content@,
            back_over_word(content@, back_over_sep(content@, char_index_at(content@, offset as int))),
        ),
        r <= offset,
{
    let (v, offs, k) = chars_and_index(content, offset);
    let ghost cs = content@;
    let mut j = k;
    while j > 0 && char_is_sep(v[j - 1])
        invariant
            j <= k <= v@.len(),
            v@ == cs,
            back_over_sep(cs, k as int) == back_over_sep(cs, j as int),
        decreases j,
    {
        j = j - 1;
    }
    let mut m = j;
    while m > 0 && !char_is_sep(v[m - 1])
        invariant
            m <= j <= v@.len(),
            v@ == cs,
            back_over_word(cs, j as int) == back_over_word(cs, m as int),
        decreases m,
    {
        m = m - 1;
    }
    proof {
        lemma_back_bounds(cs, k as int);
        lemma_back_bounds(cs, j as int);
        lemma_offset_mono(cs, m as int, k as int);
    }
    offs[m]
}

/// End of the next word: from `offset`, forward over the word, then over
/// the separators after it; the text's length at or past its end.
pub fn next_word_boundary(content: &str, offset: usize) -> (r: usize)
    requires
        offset < encode_utf8(content@).len() ==> is_char_boundary(
            encode_utf8(content@),
            offset as int,
        ),
    ensures
        r == if offset >= encode_utf8(content@).len() {
            encode_utf8(content@).len() as int
        } else {
            crate::selection::offset(
                content@,
                fwd_over_sep(content@, fwd_over_word(content@, char_index_at(content@, offset as int))),
            )
        },
        r <= encode_utf8(content@).len(),
        offset <= encode_utf8(content@).len() ==> offset <= r,
{
    let n = content.as_bytes().len();
    if offset >= n {
        return n;
    }
    let (v, offs, k) = chars_and_index(content, offset);
    let ghost cs = content@;
    let mut j = k;
    while j < v.len() && !char_is_sep(v[j])
        invariant
            k <= j <= v@.len(),
            v@ == cs,
            fwd_over_word(cs, k as int) == fwd_over_word(cs, j as int),
        decreases v.len() - j,
    {
        j = j + 1;
    }
    let mut m = j;
    while m < v.len() && char_is_sep(v[m])
        invariant
            j <= m <= v@.len(),
            v@ == cs,
            fwd_over_sep(cs, j as int) == fwd_over_sep(cs, m as int),
        decreases v.len() - m,
    {
        m = m + 1;
    }
    proof {
        lemma_offset_mono(cs, k as int, m as int);
        lemma_offset_mono(cs, m as int, cs.len() as int);
        lemma_offset_full(cs);
    }
    offs[m]
}

// -- Rows and columns ----------------------------------------------------

/// Number of `\n` bytes among the first `i` bytes.
pub open spec fn newlines(bytes: Seq<u8>, i: int) -> int
    decreases i,
{
    if i <= 0 || i > bytes.len() {
        0
    } else {
        newlines(bytes, i - 1) + if bytes[i - 1] == 10 {
            1int
        } else {
            0int
        }
    }
}

proof fn lemma_newlines_bound(bytes: Seq<u8>, i: int)
    requires
        0 <= i <= bytes.len(),
    ensures
        0 <= newlines(bytes, i) <= i,
    decreases i,
{
    if i > 0 {
        lemma_newlines_bound(bytes, i - 1);
    }
}

proof fn lemma_line_start_bounds(bytes: Seq<u8>, i: int)
    requires
        0 <= i <= bytes.len(),
    ensures
        0 <= line_start(bytes, i) <= i,
    decreases i,
{
    if i > 0 && bytes[i - 1] != 10 {
        lemma_line_start_bounds(bytes, i - 1);
    }
}

proof fn lemma_line_end_bounds(bytes: Seq<u8>, i: int)
    requires
        0 <= i <= bytes.len(),
    ensures
        i <= line_end(bytes, i) <= bytes.len(),
        line_end(bytes, i) < bytes.len() ==> bytes[line_end(bytes, i)] == 10,
    decreases bytes.len() - i,
{
    if i < bytes.len() && bytes[i] != 10 {
        lemma_line_end_bounds(bytes, i + 1);
    }
}

/// The end of the text is a character boundary.
proof fn lemma_end_is_boundary(cs: Seq<char>)
    ensures
        is_char_boundary(encode_utf8(cs), encode_utf8(cs).len() as int),
{
    lemma_offset_full(cs);
    lemma_char_boundary(cs, encode_utf8(cs).len() as int);
    assert(offset(cs, cs.len() as int) == encode_utf8(cs).len());
}

/// Row and column of a byte offset (capped at the text's length): the row
/// counts the `\n` before it, the column its distance in bytes from the
/// start of its line.
pub open spec fn spec_row_col(bytes: Seq<u8>, offset: int) -> (int, int) {
    let m = if offset <= bytes.len() {
        offset
    } else {
        bytes.len() as int
    };
    (newlines(bytes, m), m - line_start(bytes, m))
}

/// Byte offset of column `col` on line `row`: capped at the line's end, and
/// the text's length when there is no such line.
pub open spec fn spec_offset_at(bytes: Seq<u8>, row: nat, col: int) -> int {
    let s = nth_line_start(bytes, 0, row);
    if s < 0 {
        bytes.len() as int
    } else if col <= line_end(bytes, s) - s {
        s + col
    } else {
        line_end(bytes, s)
    }
}

/// Row and column of a byte offset (see [`spec_row_col`]).
pub fn offset_to_row_col(content: &str, offset: usize) -> (r: (usize, usize))
    requires
        0 < offset <= encode_utf8(content@).len() ==> is_char_boundary(
            encode_utf8(content@),
            offset as int,
        ),
    ensures
        (r.0 as int, r.1 as int) == spec_row_col(encode_utf8(content@), offset as int),
{
    let bs = content.as_bytes();
    let n = bs.len();
    let m = if offset <= n {
        offset
    } else {
        n
    };
    let mut row: usize = 0;
    let mut i: usize = 0;
    while i < m
        invariant
            i <= m <= n == bs@.len(),
            bs@ == encode_utf8(content@),
            row == newlines(bs@, i as int),
        decreases m - i,
    {
        proof {
            lemma_newlines_bound(bs@, i as int);
        }
        if bs[i] == 10 {
            row = row + 1;
        }
        i = i + 1;
    }
    proof {
        lemma_end_is_boundary(content@);
        lemma_line_start_bounds(bs@, m as int);
        broadcast use vstd::utf8::encode_utf8_valid_utf8;
        assert(is_char_boundary(bs@, 0));
    }
    let start = line_start_offset(content, m);
    (row, m - start)
}

/// Start of line `row`, searching from byte `pos` (the start of a line):
/// -1 when the text has fewer lines.
pub open spec fn nth_line_start(bytes: Seq<u8>, pos: int, row: nat) -> int
    decreases row,
{
    if row == 0 {
        pos
    } else if line_end(bytes, pos) >= bytes.len() {
        -1
    } else {
        nth_line_start(bytes, line_end(bytes, pos) + 1, (row - 1) as nat)
    }
}

/// Byte offset of column `col` on line `row` (see [`spec_offset_at`]).
pub fn row_col_to_offset(content: &str, row: usize, col: usize) -> (r: usize)
    ensures
        r == spec_offset_at(encode_utf8(content@), row as nat, col as int),
{
    let bs = content.as_bytes();
    let n = bs.len();
    let mut pos: usize = 0;
    let mut k: usize = 0;
    while k < row
        invariant
            k <= row,
            pos <= n == bs@.len(),
            bs@ == encode_utf8(content@),
            nth_line_start(bs@, 0, row as nat) == nth_line_start(bs@, pos as int, (row - k) as nat),
        decreases row - k,
    {
        let mut e = pos;
        while e < n && bs[e] != 10
            invariant
                pos <= e <= n == bs@.len(),
                line_end(bs@, pos as int) == line_end(bs@, e as int),
            decreases n - e,
        {
            e = e + 1;
        }
        if e >= n {
            return n;
        }
        pos = e + 1;
        k = k + 1;
    }
    let mut e = pos;
    while e < n && bs[e] != 10
        invariant
            pos <= e <= n == bs@.len(),
            line_end(bs@, pos as int) == line_end(bs@, e as int),
        decreases n - e,
    {
        e = e + 1;
    }
    if col <= e - pos {
        pos + col
    } else {
        e
    }
}

/// What lies between the start of its line and a byte: no `\n`.
proof fn lemma_line_start_props(bytes: Seq<u8>, i: int)
    requires
        0 <= i <= bytes.len(),
    ensures
        0 <= line_start(bytes, i) <= i,
        forall|j: int| line_start(bytes, i) <= j < i ==> bytes[j] != 10,
    decreases i,
{
    if i > 0 && bytes[i - 1] != 10 {
        lemma_line_start_props(bytes, i - 1);
    }
}

/// Scanning for the line end from `p` passes every byte up to `q` when none
/// of them is a `\n`.
proof fn lemma_line_end_past(bytes: Seq<u8>, p: int, q: int)
    requires
        0 <= p <= q <= bytes.len(),
        forall|j: int| p <= j < q ==> bytes[j] != 10,
    ensures
        line_end(bytes, p) == line_end(bytes, q),
    decreases q - p,
{
    if p < q {
        lemma_line_end_past(bytes, p + 1, q);
    }
}

/// The line after the one that starts at `nth_line_start(p, r)`.
proof fn lemma_nth_line_step(bytes: Seq<u8>, p: int, r: nat)
    ensures
        nth_line_start(bytes, p, r + 1) == ({
            let s = nth_line_start(bytes, p, r);
            if s < 0 || line_end(bytes, s) >= bytes.len() {
                -1
            } else {
                line_end(bytes, s) + 1
            }
        }),
    decreases r,
{
    let le = line_end(bytes, p);
    assert(nth_line_start(bytes, p, r + 1) == if le >= bytes.len() {
        -1
    } else {
        nth_line_start(bytes, le + 1, r)
    });
    if r > 0 {
        assert(nth_line_start(bytes, p, r) == if le >= bytes.len() {
            -1
        } else {
            nth_line_start(bytes, le + 1, (r - 1) as nat)
        });
        if le < bytes.len() {
            lemma_nth_line_step(bytes, le + 1, (r - 1) as nat);
            assert((r - 1) as nat + 1 == r);
        }
    } else {
        assert(nth_line_start(bytes, p, r) == p);
        if p < 0 {
            assert(le == bytes.len());
        }
    }
}

/// The line of byte `i` is the one numbered by the `\n` before `i`.
proof fn lemma_nth_line_of(bytes: Seq<u8>, i: int)
    requires
        0 <= i <= bytes.len(),
    ensures
        newlines(bytes, i) >= 0,
        nth_line_start(bytes, 0, newlines(bytes, i) as nat) == line_start(bytes, i),
    decreases i,
{
    if i > 0 {
        lemma_nth_line_of(bytes, i - 1);
        if bytes[i - 1] == 10 {
            let n = newlines(bytes, i - 1);
            let s = line_start(bytes, i - 1);
            lemma_line_start_props(bytes, i - 1);
            lemma_line_end_past(bytes, s, i - 1);
            lemma_nth_line_step(bytes, 0, n as nat);
            assert(newlines(bytes, i) as nat == (n + 1) as nat);
        }
    }
}

/// Going from a byte offset to its row and column and back gives the offset.
pub proof fn lemma_row_col_round_trip(bytes: Seq<u8>, o: int)
    requires
        0 <= o <= bytes.len(),
    ensures
        spec_row_col(bytes, o).0 >= 0,
        spec_offset_at(bytes, spec_row_col(bytes, o).0 as nat, spec_row_col(bytes, o).1) == o,
{
    lemma_nth_line_of(bytes, o);
    lemma_line_start_props(bytes, o);
    lemma_line_end_past(bytes, line_start(bytes, o), o);
    lemma_line_end_bounds(bytes, o);
}

/// Where the cursor goes one line up: the same column on the line above
/// (capped at its end), or the start of the text from the first line.
pub open spec fn spec_offset_above(bytes: Seq<u8>, offset: int) -> int {
    let (row, col) = spec_row_col(bytes, offset);
    if row > 0 {
        spec_offset_at(bytes, (row - 1) as nat, col)
    } else {
        0
    }
}

/// Where the cursor goes one line down: the same column on the line below
/// (capped at its end), or the end of the text from the last line.
pub open spec fn spec_offset_below(bytes: Seq<u8>, offset: int) -> int {
    let (row, col) = spec_row_col(bytes, offset);
    if row + 1 < newlines(bytes, bytes.len() as int) + 1 {
        spec_offset_at(bytes, (row + 1) as nat, col)
    } else {
        bytes.len() as int
    }
}

/// The cursor's offset after moving one line up from `offset`.
pub fn offset_above(content: &str, offset: usize) -> (r: usize)
    requires
        0 < offset <= encode_utf8(content@).len() ==> is_char_boundary(
            encode_utf8(content@),
            offset as int,
        ),
    ensures
        r == spec_offset_above(encode_utf8(content@), offset as int),
{
    let (row, col) = offset_to_row_col(content, offset);
    if row > 0 {
        row_col_to_offset(content, row - 1, col)
    } else {
        0
    }
}

/// The cursor's offset after moving one line down from `offset`.
pub fn offset_below(content: &str, offset: usize) -> (r: usize)
    requires
        0 < offset <= encode_utf8(content@).len() ==> is_char_boundary(
            encode_utf8(content@),
            offset as int,
        ),
    ensures
        r == spec_offset_below(encode_utf8(content@), offset as int),
{
    let (row, col) = offset_to_row_col(content, offset);
    let n = content.as_bytes().len();
    proof {
        lemma_end_is_boundary(content@);
    }
    let (last_row, _) = offset_to_row_col(content, n);
    proof {
        lemma_newlines_bound(encode_utf8(content@), n as int);
    }
    if row < last_row {
        row_col_to_offset(content, row + 1, col)
    } else {
        n
    }
}

/// The text with the bytes `start..end` replaced by `new_text`: the text
/// before `start`, then `new_text`, then the text from `end` on.
pub open spec fn spec_splice(cs: Seq<char>, start: int, end: int, new_text: Seq<char>) -> Seq<char> {
    cs.subrange(0, char_index_at(cs, start)) + new_text + cs.subrange(
        char_index_at(cs, end),
        cs.len() as int,
    )
}

/// Replace the bytes `start..end` of `content` by `new_text`.
pub fn splice_text(content: &str, start: usize, end: usize, new_text: &str) -> (r: String)
    requires
        is_char_boundary(encode_utf8(content@), start as int),
        is_char_boundary(encode_utf8(content@), end as int),
    ensures
        r@ == spec_splice(content@, start as int, end as int, new_text@),
{
    let (v, _offs, ks) = chars_and_index(content, start);
    let (_w, _offs2, ke) = chars_and_index(content, end);
    let mut out = string_of(&v, 0, ks);
    crate::text::push_str(&mut out, new_text);
    crate::text::push_chars(&mut out, &v, ke, v.len());
    out
}

// -- UTF-16 positions ----------------------------------------------------

/// Number of UTF-16 code units of `c` (`char::len_utf16`).
pub open spec fn utf16_width(c: char) -> int {
    if (c as u32) >= 0x10000 {
        2
    } else {
        1
    }
}

/// UTF-16 length of the first `k` characters.
pub open spec fn utf16_prefix(cs: Seq<char>, k: int) -> int
    decreases k,
{
    if k <= 0 || k > cs.len() {
        0
    } else {
        utf16_prefix(cs, k - 1) + utf16_width(cs[k - 1])
    }
}

/// The first character index from `k` on whose UTF-16 prefix reaches
/// `target`, or the number of characters.
pub open spec fn utf16_reach(cs: Seq<char>, target: int, k: int) -> int
    decreases cs.len() - k,
{
    if k < 0 || k >= cs.len() || utf16_prefix(cs, k) >= target {
        k
    } else {
        utf16_reach(cs, target, k + 1)
    }
}

/// The first character index from `k` on whose byte offset reaches
/// `target`, or the number of characters.
pub open spec fn byte_reach(cs: Seq<char>, target: int, k: int) -> int
    decreases cs.len() - k,
{
    if k < 0 || k >= cs.len() || offset(cs, k) >= target {
        k
    } else {
        byte_reach(cs, target, k + 1)
    }
}

proof fn lemma_utf16_le_utf8(cs: Seq<char>, k: int)
    requires
        0 <= k <= cs.len(),
    ensures
        0 <= utf16_prefix(cs, k) <= offset(cs, k),
    decreases k,
{
    if k == 0 {
        assert(cs.subrange(0, 0) =~= Seq::<char>::empty());
    } else {
        lemma_utf16_le_utf8(cs, k - 1);
        lemma_offset_step(cs, k - 1);
    }
}

fn char_utf16_width(c: char) -> (r: usize)
    ensures
        r == utf16_width(c),
{
    if (c as u32) >= 0x10000 {
        2
    } else {
        1
    }
}

/// Byte offset of a UTF-16 position: the offset of the first character at
/// which the UTF-16 count reaches `offset`, or the text's length.
pub fn offset_from_utf16(content: &str, offset: usize) -> (r: usize)
    ensures
        r == crate::selection::offset(content@, utf16_reach(content@, offset as int, 0)),
{
    let v = chars_of(content);
    let ghost cs = content@;
    let n = content.as_bytes().len();
    let mut k: usize = 0;
    let mut u16: usize = 0;
    let mut u8: usize = 0;
    proof {
        assert(cs.subrange(0, 0) =~= Seq::<char>::empty());
        lemma_offset_full(cs);
    }
    while k < v.len() && u16 < offset
        invariant
            k <= v@.len(),
            v@ == cs,
            n == encode_utf8(cs).len(),
            u16 == utf16_prefix(cs, k as int),
            u8 == crate::selection::offset(cs, k as int),
            utf16_reach(cs, offset as int, 0) == utf16_reach(cs, offset as int, k as int),
        decreases v.len() - k,
    {
        proof {
            lemma_offset_step(cs, k as int);
            lemma_offset_mono(cs, k + 1, cs.len() as int);
            lemma_offset_full(cs);
            lemma_utf16_le_utf8(cs, k + 1);
        }
        u16 = u16 + char_utf16_width(v[k]);
        u8 = u8 + char_utf8_width(v[k]);
        k = k + 1;
    }
    u8
}

/// UTF-16 position of a byte offset: the UTF-16 length of the characters
/// before the first one whose byte offset reaches `offset`.
pub fn offset_to_utf16(content: &str, offset: usize) -> (r: usize)
    ensures
        r == utf16_prefix(content@, byte_reach(content@, offset as int, 0)),
{
    let v = chars_of(content);
    let ghost cs = content@;
    let n = content.as_bytes().len();
    let mut k: usize = 0;
    let mut u16: usize = 0;
    let mut u8: usize = 0;
    proof {
        assert(cs.subrange(0, 0) =~= Seq::<char>::empty());
        lemma_offset_full(cs);
    }
    while k < v.len() && u8 < offset
        invariant
            k <= v@.len(),
            v@ == cs,
            n == encode_utf8(cs).len(),
            u16 == utf16_prefix(cs, k as int),
            u8 == crate::selection::offset(cs, k as int),
            byte_reach(cs, offset as int, 0) == byte_reach(cs, offset as int, k as int),
        decreases v.len() - k,
    {
        proof {
            lemma_offset_step(cs, k as int);
            lemma_offset_mono(cs, k + 1, cs.len() as int);
            lemma_offset_full(cs);
            lemma_utf16_le_utf8(cs, k + 1);
        }
        u16 = u16 + char_utf16_width(v[k]);
        u8 = u8 + char_utf8_width(v[k]);
        k = k + 1;
    }
    u16
}

// -- Grapheme boundaries -------------------------------------------------

/// Byte offsets at which the extended grapheme clusters of a text start, in
/// the order `UnicodeSegmentation::grapheme_indices` yields them.
pub uninterp spec fn grapheme_starts(s: Seq<char>) -> Seq<usize>;

/// `UnicodeSegmentation::grapheme_indices(text, true)`, keeping the offsets.
/// The clusters are non-empty pieces that cover the text in order, so their
/// offsets start at 0 (for a non-empty text), grow strictly, and are
/// character boundaries below the text's length. Where the clusters break is
/// the crate's Unicode rule and is only named here.
#[verifier::external_body]
fn grapheme_offsets(text: &str) -> (r: Vec<usize>)
    ensures
        r@ == grapheme_starts(text@),
        (r@.len() == 0) == (text@.len() == 0),
        r@.len() > 0 ==> r@[0] == 0,
        forall|i: int, j: int| 0 <= i < j < r@.len() ==> r@[i] < r@[j],
        forall|i: int|
            0 <= i < r@.len() ==> r@[i] < encode_utf8(text@).len() && is_char_boundary(
                encode_utf8(text@),
                r@[i] as int,
            ),
{
    text.grapheme_indices(true).map(|(i, _)| i).collect()
}

/// The grapheme boundary before `offset`: the offset itself minus one after
/// a `\n`, else the start of the last grapheme cluster of the text before
/// `offset` (0 when there is none).
pub open spec fn spec_previous_boundary(cs: Seq<char>, offset: int) -> int {
    let bytes = encode_utf8(cs);
    if offset == 0 {
        0
    } else if bytes[offset - 1] == 10 {
        offset - 1
    } else {
        let g = grapheme_starts(cs.subrange(0, char_index_at(cs, offset)));
        if g.len() == 0 {
            0
        } else {
            g.last() as int
        }
    }
}

/// The grapheme boundary after `offset`: the text's length at its end, just
/// past a `\n`, else the start of the second grapheme cluster of the text
/// from `offset` on (the text's length when there is none).
pub open spec fn spec_next_boundary(cs: Seq<char>, offset: int) -> int {
    let bytes = encode_utf8(cs);
    if offset >= bytes.len() {
        bytes.len() as int
    } else if bytes[offset] == 10 {
        offset + 1
    } else {
        let g = grapheme_starts(cs.subrange(char_index_at(cs, offset), cs.len() as int));
        if g.len() >= 2 {
            offset + g[1]
        } else {
            bytes.len() as int
        }
    }
}

/// Previous cursor stop before `offset` (one grapheme cluster back).
pub fn previous_boundary(content: &str, offset: usize) -> (r: usize)
    requires
        is_char_boundary(encode_utf8(content@), offset as int),
    ensures
        r == spec_previous_boundary(content@, offset as int),
        r <= offset,
        offset > 0 ==> r < offset,
{
    if offset == 0 {
        return 0;
    }
    let bs = content.as_bytes();
    proof {
        lemma_boundary_le_len(content@, offset as int);
    }
    if bs[offset - 1] == 10 {
        return offset - 1;
    }
    let (v, _offs, k) = chars_and_index(content, offset);
    let before = string_of(&v, 0, k);
    let g = grapheme_offsets(before.as_str());
    last_grapheme_start(g.as_slice())
}

/// Next cursor stop after `offset` (one grapheme cluster on).
pub fn next_boundary(content: &str, offset: usize) -> (r: usize)
    requires
        offset < encode_utf8(content@).len() ==> is_char_boundary(
            encode_utf8(content@),
            offset as int,
        ),
    ensures
        r == spec_next_boundary(content@, offset as int),
        r <= encode_utf8(content@).len(),
        offset < encode_utf8(content@).len() ==> offset < r,
        offset >= encode_utf8(content@).len() ==> r == encode_utf8(content@).len(),
{
    let bs = content.as_bytes();
    let n = bs.len();
    if offset >= n {
        return n;
    }
    if bs[offset] == 10 {
        return offset + 1;
    }
    let (v, _offs, k) = chars_and_index(content, offset);
    let ghost cs = content@;
    let after = string_of(&v, k, v.len());
    let g = grapheme_offsets(after.as_str());
    proof {
        assert(cs =~= cs.subrange(0, k as int) + cs.subrange(k as int, cs.len() as int));
        lemma_encode_len_concat(cs.subrange(0, k as int), cs.subrange(k as int, cs.len() as int));
    }
    second_grapheme_stop(offset, g.as_slice(), n)
}

/// The start of the last grapheme cluster, from the cluster offsets of the
/// text before the cursor; 0 when there is none.
pub fn last_grapheme_start(starts: &[usize]) -> (r: usize)
    ensures
        r == if starts@.len() == 0 {
            0
        } else {
            starts@.last()
        },
{
    if starts.len() == 0 {
        0
    } else {
        starts[starts.len() - 1]
    }
}

/// The cursor stop after `offset`, from the cluster offsets of the text from
/// `offset` on: the start of the second cluster, or `len` when there is only
/// one.
pub fn second_grapheme_stop(offset: usize, starts: &[usize], len: usize) -> (r: usize)
    requires
        starts@.len() >= 2 ==> offset + starts@[1] <= usize::MAX,
    ensures
        r == if starts@.len() >= 2 {
            offset + starts@[1]
        } else {
            len as int
        },
{
    if starts.len() >= 2 {
        offset + starts[1]
    } else {
        len
    }
}

// -- Selection -----------------------------------------------------------

/// The selection of a text field: a byte range and which end the cursor is
/// at (`reversed`: the start).
pub struct InputSelection {
    pub range: std::ops::Range<usize>,
    pub reversed: bool,
}

/// Where the cursor is.
pub open spec fn spec_cursor(s: InputSelection) -> usize {
    if s.reversed {
        s.range.start
    } else {
        s.range.end
    }
}

/// The end of the selection that stays put while the cursor moves.
pub open spec fn spec_anchor(s: InputSelection) -> usize {
    if s.reversed {
        s.range.end
    } else {
        s.range.start
    }
}

/// The selection after the cursor is dragged to `offset`: the cursor's end
/// moves; when the range would run backwards its ends swap and the cursor
/// changes side.
pub open spec fn spec_select_to(s: InputSelection, offset: usize) -> InputSelection {
    let (start, end) = if s.reversed {
        (offset, s.range.end)
    } else {
        (s.range.start, offset)
    };
    if end < start {
        InputSelection { range: (end..start), reversed: !s.reversed }
    } else {
        InputSelection { range: (start..end), reversed: s.reversed }
    }
}

impl InputSelection {
    /// The cursor's byte offset.
    pub fn cursor_offset(&self) -> (r: usize)
        ensures
            r == spec_cursor(*self),
    {
        if self.reversed {
            self.range.start
        } else {
            self.range.end
        }
    }

    /// Put the cursor at `offset`, dropping the selection.
    pub fn move_to(&mut self, offset: usize)
        ensures
            final(self).range.start == offset,
            final(self).range.end == offset,
            final(self).reversed == old(self).reversed,
    {
        self.range = offset..offset;
    }

    /// Drag the cursor to `offset`, keeping the other end.
    pub fn select_to(&mut self, offset: usize)
        ensures
            *final(self) == spec_select_to(*old(self), offset),
    {
        if self.reversed {
            self.range.start = offset;
        } else {
            self.range.end = offset;
        }
        if self.range.end < self.range.start {
            self.reversed = !self.reversed;
            self.range = self.range.end..self.range.start;
        }
    }
}

/// Dragging the cursor to an offset puts the cursor there, keeps the anchor,
/// and leaves the range in order.
pub proof fn lemma_select_to_cursor(s: InputSelection, offset: usize)
    requires
        s.range.start <= s.range.end,
    ensures
        spec_cursor(spec_select_to(s, offset)) == offset,
        spec_anchor(spec_select_to(s, offset)) == spec_anchor(s),
        spec_select_to(s, offset).range.start <= spec_select_to(s, offset).range.end,
{
}

/// From index `j` on, the first character whose byte offset reaches the
/// offset of `k` is `k`.
proof fn lemma_byte_reach_at(cs: Seq<char>, j: int, k: int)
    requires
        0 <= j <= k <= cs.len(),
    ensures
        byte_reach(cs, offset(cs, k), j) == k,
    decreases k - j,
{
    if j < k {
        lemma_offset_mono(cs, j, k);
        lemma_byte_reach_at(cs, j + 1, k);
    }
}

proof fn lemma_utf16_mono(cs: Seq<char>, j: int, k: int)
    requires
        0 <= j < k <= cs.len(),
    ensures
        utf16_prefix(cs, j) < utf16_prefix(cs, k),
    decreases k - j,
{
    if j + 1 < k {
        lemma_utf16_mono(cs, j, k - 1);
    }
}

/// From index `j` on, the first character whose UTF-16 prefix reaches that
/// of `k` is `k`.
proof fn lemma_utf16_reach_at(cs: Seq<char>, j: int, k: int)
    requires
        0 <= j <= k <= cs.len(),
    ensures
        utf16_reach(cs, utf16_prefix(cs, k), j) == k,
    decreases k - j,
{
    if j < k {
        lemma_utf16_mono(cs, j, k);
        lemma_utf16_reach_at(cs, j + 1, k);
    }
}

/// Converting a character boundary to a UTF-16 position and back gives the
/// boundary.
pub proof fn lemma_utf16_round_trip(cs: Seq<char>, k: int)
    requires
        0 <= k <= cs.len(),
    ensures
        byte_reach(cs, offset(cs, k), 0) == k,
        offset(cs, utf16_reach(cs, utf16_prefix(cs, byte_reach(cs, offset(cs, k), 0)), 0))
            == offset(cs, k),
{
    lemma_byte_reach_at(cs, 0, k);
    lemma_utf16_reach_at(cs, 0, k);
}

// -- Cursor and selection on laid-out lines ------------------------------

/// Walk line lengths from line `k` with `remaining` bytes left: stop at the
/// first line that holds the remaining offset (the `\n` after each line takes
/// one byte), giving that line and the offset within it.
pub open spec fn walk_lines(lens: Seq<usize>, k: int, remaining: int) -> (int, int)
    decreases lens.len() - k,
{
    if k < 0 || k >= lens.len() || remaining <= lens[k] {
        (k, remaining)
    } else {
        walk_lines(lens, k + 1, remaining - lens[k] - 1)
    }
}

/// The line and column at which a cursor at byte `cursor` is drawn, for
/// lines of the given byte lengths: past the last line it stays on the last
/// line; the column is capped at the line's length.
pub open spec fn spec_cursor_row_col(lens: Seq<usize>, cursor: int) -> (int, int) {
    let (row, rem) = walk_lines(lens, 0, cursor);
    let col = if row < lens.len() {
        if rem <= lens[row] {
            rem
        } else {
            lens[row] as int
        }
    } else {
        0
    };
    (if row <= lens.len() - 1 {
        row
    } else {
        lens.len() - 1
    }, col)
}

proof fn lemma_walk_lines(lens: Seq<usize>, k: int, remaining: int)
    requires
        0 <= k <= lens.len(),
        0 <= remaining,
    ensures
        k <= walk_lines(lens, k, remaining).0 <= lens.len(),
        0 <= walk_lines(lens, k, remaining).1 <= remaining,
    decreases lens.len() - k,
{
    if k < lens.len() && remaining > lens[k] {
        lemma_walk_lines(lens, k + 1, remaining - lens[k] - 1);
    }
}

/// Line and column of the cursor on lines of the given byte lengths (see
/// [`spec_cursor_row_col`]).
pub fn cursor_row_col(line_lens: &[usize], cursor: usize) -> (r: (usize, usize))
    requires
        line_lens@.len() >= 1,
    ensures
        (r.0 as int, r.1 as int) == spec_cursor_row_col(line_lens@, cursor as int),
{
    let n = line_lens.len();
    let mut row: usize = 0;
    let mut remaining: usize = cursor;
    while row < n && remaining > line_lens[row]
        invariant
            row <= n == line_lens@.len(),
            walk_lines(line_lens@, 0, cursor as int) == walk_lines(
                line_lens@,
                row as int,
                remaining as int,
            ),
        decreases n - row,
    {
        remaining = remaining - line_lens[row] - 1;
        row = row + 1;
    }
    let col = if row < n {
        if remaining <= line_lens[row] {
            remaining
        } else {
            line_lens[row]
        }
    } else {
        0
    };
    let shown_row = if row <= n - 1 {
        row
    } else {
        n - 1
    };
    (shown_row, col)
}

/// The part of one laid-out line that a selection highlights: from and to
/// byte offsets within the line, and whether the highlight runs on past the
/// line's end (the selection continues onto the next line).
#[derive(Clone, Copy, Debug, PartialEq, Eq, Structural)]
pub struct LineSpan {
    pub row: usize,
    pub from: usize,
    pub to: usize,
    pub past_end: bool,
}

/// Byte offset at which line `k` starts.
pub open spec fn line_offset(lens: Seq<usize>, k: int) -> int
    decreases k,
{
    if k <= 0 || k > lens.len() {
        0
    } else {
        line_offset(lens, k - 1) + lens[k - 1] + 1
    }
}

/// The highlight spans of line `k` for the selection `[s, e)`: the part of
/// the line inside the selection, if not empty; and, when the selection
/// starts at or before the line's end and runs past it but covers none of
/// the line, a span from the selection's start to the line's end that runs
/// on past it.
pub open spec fn line_spans(lens: Seq<usize>, k: int, s: int, e: int) -> Seq<LineSpan> {
    let ls = line_offset(lens, k);
    let le = ls + lens[k];
    let ss = if s > ls {
        s
    } else {
        ls
    };
    let se = if e < le {
        e
    } else {
        le
    };
    (if ss < se {
        seq![LineSpan { row: k as usize, from: (ss - ls) as usize, to: (se - ls) as usize, past_end: false }]
    } else {
        Seq::empty()
    }) + (if e > le && s <= le && ss >= se {
        seq![LineSpan { row: k as usize, from: (ss - ls) as usize, to: lens[k], past_end: true }]
    } else {
        Seq::empty()
    })
}

/// The highlight spans of the first `k` lines.
pub open spec fn all_line_spans(lens: Seq<usize>, k: int, s: int, e: int) -> Seq<LineSpan>
    decreases k,
{
    if k <= 0 || k > lens.len() {
        Seq::empty()
    } else {
        all_line_spans(lens, k - 1, s, e) + line_spans(lens, k - 1, s, e)
    }
}

/// The highlight spans of a non-empty selection `[start, end)` over lines of
/// the given byte lengths, line by line; nothing for an empty selection.
pub fn selection_line_spans(line_lens: &[usize], start: usize, end: usize) -> (r: Vec<LineSpan>)
    requires
        line_offset(line_lens@, line_lens@.len() as int) <= usize::MAX,
    ensures
        r@ == if start < end {
            all_line_spans(line_lens@, line_lens@.len() as int, start as int, end as int)
        } else {
            Seq::empty()
        },
{
    let mut out: Vec<LineSpan> = Vec::new();
    if start >= end {
        return out;
    }
    let n = line_lens.len();
    let mut offset: usize = 0;
    let mut k: usize = 0;
    proof {
        lemma_line_offset_mono(line_lens@, 0, n as int);
    }
    while k < n
        invariant
            k <= n == line_lens@.len(),
            start < end,
            offset == line_offset(line_lens@, k as int),
            line_offset(line_lens@, n as int) <= usize::MAX,
            out@ == all_line_spans(line_lens@, k as int, start as int, end as int),
        decreases n - k,
    {
        proof {
            lemma_line_offset_mono(line_lens@, k + 1, n as int);
        }
        let line_start = offset;
        let line_end = offset + line_lens[k];
        let sel_start = if start > line_start {
            start
        } else {
            line_start
        };
        let sel_end = if end < line_end {
            end
        } else {
            line_end
        };
        let ghost before = out@;
        if sel_start < sel_end {
            out.push(
                LineSpan {
                    row: k,
                    from: sel_start - line_start,
                    to: sel_end - line_start,
                    past_end: false,
                },
            );
        }
        if end > line_end && start <= line_end && sel_start >= sel_end {
            out.push(
                LineSpan {
                    row: k,
                    from: sel_start - line_start,
                    to: line_lens[k],
                    past_end: true,
                },
            );
        }
        proof {
            assert(out@ =~= before + line_spans(line_lens@, k as int, start as int, end as int));
        }
        offset = line_end + 1;
        k = k + 1;
    }
    out
}

proof fn lemma_line_offset_nonneg(lens: Seq<usize>, k: int)
    ensures
        0 <= line_offset(lens, k),
    decreases k,
{
    if k > 0 && k <= lens.len() {
        lemma_line_offset_nonneg(lens, k - 1);
    }
}

proof fn lemma_line_offset_mono(lens: Seq<usize>, j: int, k: int)
    requires
        0 <= j <= k <= lens.len(),
    ensures
        0 <= line_offset(lens, j) <= line_offset(lens, k),
        j < k ==> line_offset(lens, j) + lens[j] + 1 <= line_offset(lens, k),
    decreases k - j,
{
    lemma_line_offset_nonneg(lens, j);
    if j < k {
        lemma_line_offset_mono(lens, j, k - 1);
    }
}

} // verus!
