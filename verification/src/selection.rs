//! Text selection logic of the renderer: byte offsets snapped to character
//! boundaries, word and line ranges for double and triple clicks, the
//! selection and `<details>` state kept across renders, and how a selection
//! splits styled text runs.

use crate::text::{chars_of, lemma_encode_len_concat, lemma_encode_len_one, char_utf8_width, utf8_width};
use std::collections::HashMap;
use vstd::prelude::*;
use vstd::utf8::{encode_utf8, is_char_boundary, valid_utf8};

verus! {

/// Byte offset of the character index `k` in the UTF-8 encoding of `cs`.
pub open spec fn offset(cs: Seq<char>, k: int) -> int {
    encode_utf8(cs.subrange(0, k)).len() as int
}

pub(crate) proof fn lemma_offset_step(cs: Seq<char>, k: int)
    requires
        0 <= k < cs.len(),
    ensures
        offset(cs, k + 1) == offset(cs, k) + utf8_width(cs[k]),
{
    assert(cs.subrange(0, k + 1) =~= cs.subrange(0, k) + seq![cs[k]]);
    lemma_encode_len_concat(cs.subrange(0, k), seq![cs[k]]);
    lemma_encode_len_one(cs[k]);
}

/// Offsets grow with the character index.
pub proof fn lemma_offset_mono(cs: Seq<char>, j: int, k: int)
    requires
        0 <= j <= k <= cs.len(),
    ensures
        offset(cs, j) <= offset(cs, k),
        j < k ==> offset(cs, j) < offset(cs, k),
    decreases k - j,
{
    if j < k {
        lemma_offset_step(cs, k - 1);
        lemma_offset_mono(cs, j, k - 1);
    }
}

pub(crate) proof fn lemma_offset_full(cs: Seq<char>)
    ensures
        offset(cs, cs.len() as int) == encode_utf8(cs).len(),
{
    assert(cs.subrange(0, cs.len() as int) =~= cs);
}

proof fn lemma_offset_drop_first(cs: Seq<char>, k: int)
    requires
        1 <= k <= cs.len(),
    ensures
        offset(cs, k) == utf8_width(cs[0]) + offset(cs.drop_first(), k - 1),
{
    assert(cs.subrange(0, k) =~= seq![cs[0]] + cs.drop_first().subrange(0, k - 1));
    lemma_encode_len_concat(seq![cs[0]], cs.drop_first().subrange(0, k - 1));
    lemma_encode_len_one(cs[0]);
}

/// The character boundaries of an encoded text are exactly the byte offsets
/// of its character indices.
pub proof fn lemma_char_boundary(cs: Seq<char>, i: int)
    ensures
        is_char_boundary(encode_utf8(cs), i) <==> exists|k: int|
            0 <= k <= cs.len() && #[trigger] offset(cs, k) == i,
    decreases cs.len(),
{
    broadcast use vstd::utf8::encode_utf8_valid_utf8;

    let bytes = encode_utf8(cs);
    assert(offset(cs, 0) == 0) by {
        assert(cs.subrange(0, 0) =~= Seq::<char>::empty());
    }
    if i == 0 {
        assert(offset(cs, 0) == i);
    } else if cs.len() == 0 {
        assert(bytes.len() == 0);
        if exists|k: int| 0 <= k <= cs.len() && #[trigger] offset(cs, k) == i {
            let k = choose|k: int| 0 <= k <= cs.len() && #[trigger] offset(cs, k) == i;
            assert(k == 0);
        }
    } else {
        vstd::utf8::encode_utf8_first_scalar(cs);
        assert(vstd::utf8::pop_first_scalar(bytes) =~= encode_utf8(cs.drop_first()));
        lemma_encode_len_one(cs[0]);
        assert(vstd::utf8::encode_scalar(cs[0] as u32).len() == utf8_width(cs[0])) by {
            assert(seq![cs[0]].drop_first() =~= Seq::<char>::empty());
            assert(encode_utf8(seq![cs[0]]) == vstd::utf8::encode_scalar(seq![cs[0]][0] as u32)
                + encode_utf8(Seq::<char>::empty()));
        }
        let w = utf8_width(cs[0]) as int;
        let rest = cs.drop_first();
        lemma_char_boundary(rest, i - w);
        if i < 0 || bytes.len() < i {
            if exists|k: int| 0 <= k <= cs.len() && #[trigger] offset(cs, k) == i {
                let k = choose|k: int| 0 <= k <= cs.len() && #[trigger] offset(cs, k) == i;
                lemma_offset_mono(cs, k, cs.len() as int);
                lemma_offset_mono(cs, 0, k);
                lemma_offset_full(cs);
            }
        } else {
            assert(is_char_boundary(bytes, i) == is_char_boundary(encode_utf8(rest), i - w));
            if is_char_boundary(bytes, i) {
                let k2 = choose|k: int| 0 <= k <= rest.len() && #[trigger] offset(rest, k) == i - w;
                lemma_offset_drop_first(cs, k2 + 1);
                assert(offset(cs, k2 + 1) == i);
            }
            if exists|k: int| 0 <= k <= cs.len() && #[trigger] offset(cs, k) == i {
                let k = choose|k: int| 0 <= k <= cs.len() && #[trigger] offset(cs, k) == i;
                assert(k >= 1);
                lemma_offset_drop_first(cs, k);
                assert(offset(rest, k - 1) == i - w);
            }
        }
    }
}

/// The largest character boundary at or below `i` (`i` itself past the end
/// of the text is taken as the end).
pub open spec fn clamp_down(bytes: Seq<u8>, i: int) -> int
    decreases i,
{
    if i <= 0 || is_char_boundary(bytes, i) {
        i
    } else {
        clamp_down(bytes, i - 1)
    }
}

/// A byte index snapped down to a character boundary; indices at or past
/// the end give the text's length.
pub open spec fn spec_clamp(bytes: Seq<u8>, index: int) -> int {
    if index >= bytes.len() {
        bytes.len() as int
    } else {
        clamp_down(bytes, index)
    }
}

/// Clamp a byte index to a valid UTF-8 character boundary, rounding down.
pub fn clamp_to_char_boundary(text: &str, index: usize) -> (r: usize)
    ensures
        r == spec_clamp(encode_utf8(text@), index as int),
{
    let len = text.as_bytes().len();
    if index >= len {
        return len;
    }
    let mut i = index;
    while !text.is_char_boundary(i) && i > 0
        invariant
            i <= index,
            clamp_down(encode_utf8(text@), index as int) == clamp_down(encode_utf8(text@), i as int),
        decreases i,
    {
        i = i - 1;
    }
    i
}

proof fn lemma_clamp_down_boundary(bytes: Seq<u8>, i: int)
    requires
        0 <= i,
    ensures
        0 <= clamp_down(bytes, i) <= i,
        is_char_boundary(bytes, clamp_down(bytes, i)) || clamp_down(bytes, i) == 0,
    decreases i,
{
    if i > 0 && !is_char_boundary(bytes, i) {
        lemma_clamp_down_boundary(bytes, i - 1);
    }
}

/// The character index whose offset is `i`, when `i` is a boundary.
pub(crate) proof fn lemma_boundary_index(cs: Seq<char>, i: int) -> (k: int)
    requires
        is_char_boundary(encode_utf8(cs), i) || i == 0,
    ensures
        0 <= k <= cs.len(),
        offset(cs, k) == i,
{
    lemma_char_boundary(cs, i);
    if i == 0 {
        assert(cs.subrange(0, 0) =~= Seq::<char>::empty());
        assert(offset(cs, 0) == i);
    }
    choose|k: int| 0 <= k <= cs.len() && #[trigger] offset(cs, k) == i
}

/// Byte index of the last `\n` before `i`, plus one; 0 when there is none.
pub open spec fn line_start(bytes: Seq<u8>, i: int) -> int
    decreases i,
{
    if i <= 0 || i > bytes.len() {
        0
    } else if bytes[i - 1] == 10 {
        i
    } else {
        line_start(bytes, i - 1)
    }
}

/// Byte index of the first `\n` at or after `i`, or the length.
pub open spec fn line_end(bytes: Seq<u8>, i: int) -> int
    decreases bytes.len() - i,
{
    if i < 0 || i >= bytes.len() {
        bytes.len() as int
    } else if bytes[i] == 10 {
        i
    } else {
        line_end(bytes, i + 1)
    }
}

/// Find the byte range of the line at the given byte index: from after the
/// previous `\n` to the next `\n` (exclusive). The index is first capped at
/// the text's length and must then fall on a character boundary.
pub fn line_range_at(text: &str, index: usize) -> (r: std::ops::Range<usize>)
    requires
        is_char_boundary(
            encode_utf8(text@),
            if index < encode_utf8(text@).len() {
                index as int
            } else {
                encode_utf8(text@).len() as int
            },
        ),
    ensures
        ({
            let bytes = encode_utf8(text@);
            let i = if index < bytes.len() {
                index as int
            } else {
                bytes.len() as int
            };
            r.start == line_start(bytes, i) && r.end == line_end(bytes, i)
        }),
{
    let bs = text.as_bytes();
    let n = bs.len();
    let index = if index < n {
        index
    } else {
        n
    };
    let mut s = index;
    while s > 0 && bs[s - 1] != 10
        invariant
            s <= index <= n == bs@.len(),
            line_start(bs@, index as int) == line_start(bs@, s as int),
        decreases s,
    {
        s = s - 1;
    }
    let mut e = index;
    while e < n && bs[e] != 10
        invariant
            index <= e <= n == bs@.len(),
            line_end(bs@, index as int) == line_end(bs@, e as int),
        decreases n - e,
    {
        e = e + 1;
    }
    s..e
}

/// Whether a character is alphanumeric in Unicode terms (`char::is_alphanumeric`).
pub uninterp spec fn alphanumeric(c: char) -> bool;

/// `char::is_alphanumeric`. Its documentation makes it the Unicode
/// `Alphabetic` or `Numeric` property; in ASCII those are exactly the letters
/// and digits, which the contract states. Beyond ASCII the answer is only
/// named ([`alphanumeric`]).
#[verifier::external_body]
pub(crate) fn is_alphanumeric(c: char) -> (r: bool)
    ensures
        r == alphanumeric(c),
        crate::text::is_alnum(c) ==> r,
        (c as u32) < 128 && !crate::text::is_alnum(c) ==> !r,
{
    c.is_alphanumeric()
}

/// A character that belongs to a word: alphanumeric or `_`.
pub open spec fn word_char(c: char) -> bool {
    alphanumeric(c) || c == '_'
}

/// The first index of the run of word characters that ends at `k`.
pub open spec fn word_start(cs: Seq<char>, k: int) -> int
    decreases k,
{
    if k <= 0 || k > cs.len() || !word_char(cs[k - 1]) {
        k
    } else {
        word_start(cs, k - 1)
    }
}

/// The end of the run of word characters that starts at `k`.
pub open spec fn word_end(cs: Seq<char>, k: int) -> int
    decreases cs.len() - k,
{
    if k < 0 || k >= cs.len() || !word_char(cs[k]) {
        k
    } else {
        word_end(cs, k + 1)
    }
}

/// The word range, in character indices, around the character `k`: the run
/// of word characters through `k` when `cs[k]` is one, else just `k`.
pub open spec fn word_range_chars(cs: Seq<char>, k: int) -> (int, int) {
    if k >= cs.len() {
        (cs.len() as int, cs.len() as int)
    } else if word_char(cs[k]) {
        (word_start(cs, k), word_end(cs, k))
    } else {
        (k, k + 1)
    }
}

/// Byte offsets of all character indices of `v`, and the length.
pub(crate) fn offsets_of(v: &Vec<char>) -> (r: Vec<usize>)
    requires
        encode_utf8(v@).len() <= usize::MAX,
    ensures
        r@.len() == v@.len() + 1,
        forall|k: int| 0 <= k <= v@.len() ==> #[trigger] r@[k] == offset(v@, k),
{
    let mut r: Vec<usize> = Vec::new();
    let mut acc: usize = 0;
    r.push(0);
    assert(v@.subrange(0, 0) =~= Seq::<char>::empty());
    let mut k: usize = 0;
    while k < v.len()
        invariant
            k <= v.len(),
            encode_utf8(v@).len() <= usize::MAX,
            r@.len() == k + 1,
            acc == offset(v@, k as int),
            forall|j: int| 0 <= j <= k ==> #[trigger] r@[j] == offset(v@, j),
        decreases v.len() - k,
    {
        proof {
            lemma_offset_step(v@, k as int);
            lemma_offset_mono(v@, k + 1, v@.len() as int);
            lemma_offset_full(v@);
        }
        acc = acc + char_utf8_width(v[k]);
        r.push(acc);
        k = k + 1;
    }
    r
}

/// Index `k` with `offs[k] == x`, for an `x` that is one of the offsets.
pub(crate) fn index_of_offset(offs: &Vec<usize>, x: usize, cs: Ghost<Seq<char>>) -> (k: usize)
    requires
        offs@.len() == cs@.len() + 1,
        forall|j: int| 0 <= j <= cs@.len() ==> #[trigger] offs@[j] == offset(cs@, j),
        exists|j: int| 0 <= j <= cs@.len() && offset(cs@, j) == x,
    ensures
        k <= cs@.len(),
        offset(cs@, k as int) == x,
{
    let mut k: usize = 0;
    while k < offs.len()
        invariant
            offs@.len() == cs@.len() + 1,
            forall|j: int| 0 <= j <= cs@.len() ==> #[trigger] offs@[j] == offset(cs@, j),
            exists|j: int| k <= j <= cs@.len() && offset(cs@, j) == x,
            k <= offs.len(),
        decreases offs.len() - k,
    {
        if offs[k] == x {
            return k;
        }
        k = k + 1;
    }
    0
}

/// The byte range of the word at a byte index (see [`word_range_chars`]);
/// the index is first capped at the length and snapped down to a character
/// boundary.
pub open spec fn spec_word_range(cs: Seq<char>, index: int) -> (int, int) {
    let bytes = encode_utf8(cs);
    let i = spec_clamp(bytes, if index < bytes.len() {
        index
    } else {
        bytes.len() as int
    });
    let k = choose|k: int| 0 <= k <= cs.len() && offset(cs, k) == i;
    let (a, b) = word_range_chars(cs, k);
    (offset(cs, a), offset(cs, b))
}

/// Find the byte range of the word at the given byte index: a run of
/// alphanumeric or `_` characters, or the single character there when it is
/// not a word character.
pub fn word_range_at(text: &str, index: usize) -> (r: std::ops::Range<usize>)
    ensures
        (r.start as int, r.end as int) == spec_word_range(text@, index as int),
{
    let v = chars_of(text);
    let ghost cs = v@;
    let n = text.as_bytes().len();
    let capped = if index < n {
        index
    } else {
        n
    };
    let i = clamp_to_char_boundary(text, capped);
    proof {
        lemma_offset_full(cs);
        lemma_clamp_down_boundary(encode_utf8(cs), capped as int);
        if i == n {
            lemma_char_boundary(cs, n as int);
            assert(offset(cs, cs.len() as int) == n);
        }
        lemma_char_boundary(cs, i as int);
        if i == 0 {
            assert(cs.subrange(0, 0) =~= Seq::<char>::empty());
            assert(offset(cs, 0) == 0);
        }
    }
    let offs = offsets_of(&v);
    let k = index_of_offset(&offs, i, Ghost(cs));
    proof {
        let kk = choose|kk: int| 0 <= kk <= cs.len() && offset(cs, kk) == i;
        if kk < k {
            lemma_offset_mono(cs, kk, k as int);
        } else if kk > k {
            lemma_offset_mono(cs, k as int, kk);
        }
        assert(kk == k);
    }
    if k >= v.len() {
        return n..n;
    }
    if is_alphanumeric(v[k]) || v[k] == '_' {
        let mut s = k;
        while s > 0 && (is_alphanumeric(v[s - 1]) || v[s - 1] == '_')
            invariant
                s <= k < v.len(),
                v@ == cs,
                word_start(cs, k as int) == word_start(cs, s as int),
            decreases s,
        {
            s = s - 1;
        }
        let mut e = k;
        while e < v.len() && (is_alphanumeric(v[e]) || v[e] == '_')
            invariant
                k <= e <= v.len(),
                v@ == cs,
                word_end(cs, k as int) == word_end(cs, e as int),
            decreases v.len() - e,
        {
            e = e + 1;
        }
        offs[s]..offs[e]
    } else {
        offs[k]..offs[k + 1]
    }
}

// -- `<details>` state ---------------------------------------------------

/// Open/closed state of the `<details>` blocks, by block ID, and the counter
/// that hands out IDs during a render pass.
pub struct DetailsState {
    open_map: HashMap<usize, bool>,
    counter: usize,
}

/// Whether block `id` is open: its recorded state, or `default_open`.
pub open spec fn state_of(m: Map<usize, bool>, id: usize, default_open: bool) -> bool {
    if m.contains_key(id) {
        m[id]
    } else {
        default_open
    }
}

impl DetailsState {
    /// The recorded states.
    pub closed spec fn open_view(&self) -> Map<usize, bool> {
        self.open_map@
    }

    /// The next ID to hand out.
    pub closed spec fn counter_view(&self) -> usize {
        self.counter
    }

    /// No recorded states; IDs start at 0.
    pub fn new() -> (r: Self)
        ensures
            r.open_view() == Map::<usize, bool>::empty(),
            r.counter_view() == 0,
    {
        DetailsState { open_map: HashMap::new(), counter: 0 }
    }

    /// Reset the counter before a new render pass (so IDs are stable).
    pub fn reset_counter(&mut self)
        ensures
            final(self).counter_view() == 0,
            final(self).open_view() == old(self).open_view(),
    {
        self.counter = 0;
    }

    /// Hand out the next block ID (wrapping at `usize::MAX`).
    pub fn next_id(&mut self) -> (r: usize)
        ensures
            r == old(self).counter_view(),
            final(self).counter_view() == if r == usize::MAX {
                0
            } else {
                r + 1
            },
            final(self).open_view() == old(self).open_view(),
    {
        let id = self.counter;
        self.counter = if id == usize::MAX {
            0
        } else {
            id + 1
        };
        id
    }

    /// Whether block `id` is open, defaulting to `default_open`; the state
    /// is recorded from then on.
    pub fn is_open(&mut self, id: usize, default_open: bool) -> (r: bool)
        ensures
            r == state_of(old(self).open_view(), id, default_open),
            final(self).open_view() == old(self).open_view().insert(id, r),
            final(self).counter_view() == old(self).counter_view(),
    {
        broadcast use vstd::std_specs::hash::group_hash_axioms;

        let current = match self.open_map.get(&id) {
            Some(v) => *v,
            None => default_open,
        };
        self.open_map.insert(id, current);
        proof {
            if old(self).open_view().contains_key(id) {
                assert(old(self).open_view().insert(id, current) =~= old(self).open_view());
            }
        }
        current
    }

    /// Toggle block `id` (starting from `default_open`), returning the new
    /// state.
    pub fn toggle(&mut self, id: usize, default_open: bool) -> (r: bool)
        ensures
            r == !state_of(old(self).open_view(), id, default_open),
            final(self).open_view() == old(self).open_view().insert(id, r),
            final(self).counter_view() == old(self).counter_view(),
    {
        broadcast use vstd::std_specs::hash::group_hash_axioms;

        let current = match self.open_map.get(&id) {
            Some(v) => *v,
            None => default_open,
        };
        let next = !current;
        self.open_map.insert(id, next);
        next
    }
}

/// Toggling a block twice restores its state, and toggling one block never
/// changes another's.
pub proof fn lemma_toggle_twice(m: Map<usize, bool>, id: usize, other: usize, d: bool, d2: bool)
    requires
        other != id,
    ensures
        ({
            let once = !state_of(m, id, d);
            let m1 = m.insert(id, once);
            let twice = !state_of(m1, id, d);
            &&& twice == state_of(m, id, d)
            &&& state_of(m1.insert(id, twice), id, d) == state_of(m, id, d)
            &&& state_of(m1, other, d2) == state_of(m, other, d2)
        }),
{
}

// -- Text selection state ------------------------------------------------

/// Selection granularity: how the click count maps to the selection extent.
#[derive(Clone, Copy, Debug, PartialEq, Eq, Structural)]
pub enum SelectionMode {
    /// Single click: character-level selection.
    Char,
    /// Double click: word-level selection.
    Word,
    /// Triple click: line-level selection.
    Line,
}

/// The active text selection (a drag in progress or completed).
#[derive(Debug)]
pub struct ActiveSelection {
    /// Which text block the selection is in.
    pub text_id: usize,
    /// Byte offset of the anchor (where the mouse went down).
    pub anchor: usize,
    /// Byte offset of the head (the current mouse position).
    pub head: usize,
    /// Whether the user is dragging.
    pub dragging: bool,
    /// Selection granularity.
    pub mode: SelectionMode,
    /// The range first selected at the click point (word or line), kept
    /// while the drag extends the selection.
    pub initial_range: Option<std::ops::Range<usize>>,
}

/// A copy of an optional range.
fn copy_range(r: &Option<std::ops::Range<usize>>) -> (c: Option<std::ops::Range<usize>>)
    ensures
        c == *r,
{
    match r {
        Some(x) => Some(x.start..x.end),
        None => None,
    }
}

impl Clone for ActiveSelection {
    fn clone(&self) -> (r: Self)
        ensures
            r == *self,
    {
        ActiveSelection {
            text_id: self.text_id,
            anchor: self.anchor,
            head: self.head,
            dragging: self.dragging,
            mode: self.mode,
            initial_range: copy_range(&self.initial_range),
        }
    }
}

/// The text selection kept across renders, and the counter that hands out
/// text-block IDs during a render pass.
pub struct SelectionState {
    selection: Option<ActiveSelection>,
    counter: usize,
}

/// The normalised byte range `(start, end)` a selection covers in a text of
/// the given encoding: both ends capped at the length and snapped down to a
/// character boundary; `None` when empty.
pub open spec fn spec_selection_range(sel: ActiveSelection, bytes: Seq<u8>) -> Option<(int, int)> {
    let lo = if sel.anchor <= sel.head {
        sel.anchor as int
    } else {
        sel.head as int
    };
    let hi = if sel.anchor <= sel.head {
        sel.head as int
    } else {
        sel.anchor as int
    };
    let n = bytes.len() as int;
    let start = spec_clamp(bytes, if lo <= n {
        lo
    } else {
        n
    });
    let end = spec_clamp(bytes, if hi <= n {
        hi
    } else {
        n
    });
    if sel.anchor == sel.head || start >= end {
        None
    } else {
        Some((start, end))
    }
}

/// The character index at byte offset `i` (a character boundary).
pub open spec fn char_index_at(cs: Seq<char>, i: int) -> int {
    choose|k: int| 0 <= k <= cs.len() && offset(cs, k) == i
}

impl SelectionState {
    /// The active selection.
    pub closed spec fn selection_view(&self) -> Option<ActiveSelection> {
        self.selection
    }

    /// The next text-block ID to hand out.
    pub closed spec fn counter_view(&self) -> usize {
        self.counter
    }

    /// No selection; IDs start at 0.
    pub fn new() -> (r: Self)
        ensures
            r.selection_view() is None,
            r.counter_view() == 0,
    {
        SelectionState { selection: None, counter: 0 }
    }

    /// Reset the text-block counter before a new render pass.
    pub fn reset_counter(&mut self)
        ensures
            final(self).counter_view() == 0,
            final(self).selection_view() == old(self).selection_view(),
    {
        self.counter = 0;
    }

    /// Hand out the next text-block ID (wrapping at `usize::MAX`).
    pub fn next_text_id(&mut self) -> (r: usize)
        ensures
            r == old(self).counter_view(),
            final(self).counter_view() == if r == usize::MAX {
                0
            } else {
                r + 1
            },
            final(self).selection_view() == old(self).selection_view(),
    {
        let id = self.counter;
        self.counter = if id == usize::MAX {
            0
        } else {
            id + 1
        };
        id
    }

    /// Update the selection; the mode and initial range are kept when the
    /// selection stays in the same text block, and reset otherwise.
    pub fn update(&mut self, text_id: usize, anchor: usize, head: usize, dragging: bool)
        ensures
            final(self).counter_view() == old(self).counter_view(),
            final(self).selection_view() == Some(
                match old(self).selection_view() {
                    Some(s) if s.text_id == text_id => ActiveSelection {
                        text_id,
                        anchor,
                        head,
                        dragging,
                        mode: s.mode,
                        initial_range: s.initial_range,
                    },
                    _ => ActiveSelection {
                        text_id,
                        anchor,
                        head,
                        dragging,
                        mode: SelectionMode::Char,
                        initial_range: None,
                    },
                },
            ),
    {
        let (mode, initial_range) = match &self.selection {
            Some(s) => if s.text_id == text_id {
                (s.mode, copy_range(&s.initial_range))
            } else {
                (SelectionMode::Char, None)
            },
            None => (SelectionMode::Char, None),
        };
        self.selection = Some(
            ActiveSelection { text_id, anchor, head, dragging, mode, initial_range },
        );
    }

    /// Update the selection with an explicit mode and initial range.
    pub fn update_with_mode(
        &mut self,
        text_id: usize,
        anchor: usize,
        head: usize,
        dragging: bool,
        mode: SelectionMode,
        initial_range: Option<std::ops::Range<usize>>,
    )
        ensures
            final(self).counter_view() == old(self).counter_view(),
            final(self).selection_view() == Some(
                ActiveSelection { text_id, anchor, head, dragging, mode, initial_range },
            ),
    {
        self.selection = Some(
            ActiveSelection { text_id, anchor, head, dragging, mode, initial_range },
        );
    }

    /// Clear the selection.
    pub fn clear(&mut self)
        ensures
            final(self).counter_view() == old(self).counter_view(),
            final(self).selection_view() is None,
    {
        self.selection = None;
    }

    /// The selection of text block `text_id`, if it holds the selection.
    pub fn selection_for(&self, text_id: usize) -> (r: Option<ActiveSelection>)
        ensures
            r == match self.selection_view() {
                Some(s) => if s.text_id == text_id {
                    Some(s)
                } else {
                    None
                },
                None => None,
            },
    {
        match &self.selection {
            Some(s) => if s.text_id == text_id {
                Some(s.clone())
            } else {
                None
            },
            None => None,
        }
    }

    /// Whether a drag is in progress (in any text block).
    pub fn is_dragging(&self) -> (r: bool)
        ensures
            r == (self.selection_view() matches Some(s) && s.dragging),
    {
        match &self.selection {
            Some(s) => s.dragging,
            None => false,
        }
    }

    /// The normalised byte range of the selection in text block `text_id`
    /// (see [`spec_selection_range`]); `None` when the block does not hold
    /// a non-empty selection.
    pub fn selection_range_for(&self, text_id: usize, text: &str) -> (r: Option<std::ops::Range<usize>>)
        ensures
            range_view(r) == spec_range_for(self.selection_view(), text_id, encode_utf8(text@)),
    {
        let active = match &self.selection {
            Some(s) => s,
            None => {
                return None;
            },
        };
        if active.text_id != text_id || active.anchor == active.head {
            return None;
        }
        let n = text.as_bytes().len();
        let lo = if active.anchor <= active.head {
            active.anchor
        } else {
            active.head
        };
        let hi = if active.anchor <= active.head {
            active.head
        } else {
            active.anchor
        };
        let start = clamp_to_char_boundary(text, if lo <= n {
            lo
        } else {
            n
        });
        let end = clamp_to_char_boundary(text, if hi <= n {
            hi
        } else {
            n
        });
        if start >= end {
            None
        } else {
            Some(start..end)
        }
    }

    /// The selected text of text block `text_id`: the characters between the
    /// ends of [`SelectionState::selection_range_for`].
    pub fn selected_text(&self, text_id: usize, text: &str) -> (r: Option<String>)
        ensures
            crate::types::opt_view(r) == spec_selected_text(self.selection_view(), text_id, text@),
    {
        let range = match self.selection_range_for(text_id, text) {
            Some(x) => x,
            None => {
                return None;
            },
        };
        let v = chars_of(text);
        let ghost cs = v@;
        let byte_len = text.as_bytes().len();
        assert(byte_len == encode_utf8(cs).len());
        proof {
            lemma_offset_full(cs);
            let sel = self.selection_view().unwrap();
            let bytes = encode_utf8(cs);
            let n = bytes.len() as int;
            let lo = if sel.anchor <= sel.head {
                sel.anchor as int
            } else {
                sel.head as int
            };
            let hi = if sel.anchor <= sel.head {
                sel.head as int
            } else {
                sel.anchor as int
            };
            lemma_clamp_is_offset(cs, if lo <= n {
                lo
            } else {
                n
            });
            lemma_clamp_is_offset(cs, if hi <= n {
                hi
            } else {
                n
            });
        }
        let offs = offsets_of(&v);
        let ka = index_of_offset(&offs, range.start, Ghost(cs));
        let kb = index_of_offset(&offs, range.end, Ghost(cs));
        proof {
            lemma_offset_unique(cs, ka as int, char_index_at(cs, range.start as int));
            lemma_offset_unique(cs, kb as int, char_index_at(cs, range.end as int));
            if kb < ka {
                lemma_offset_mono(cs, kb as int, ka as int);
            }
        }
        Some(crate::text::string_of(&v, ka, kb))
    }
}

/// Two character indices with the same offset are the same.
pub(crate) proof fn lemma_offset_unique(cs: Seq<char>, j: int, k: int)
    requires
        0 <= j <= cs.len(),
        0 <= k <= cs.len(),
        offset(cs, j) == offset(cs, k),
    ensures
        j == k,
{
    if j < k {
        lemma_offset_mono(cs, j, k);
    } else if k < j {
        lemma_offset_mono(cs, k, j);
    }
}

/// A value of [`spec_clamp`] is the offset of some character index.
proof fn lemma_clamp_is_offset(cs: Seq<char>, x: int)
    requires
        0 <= x,
    ensures
        exists|k: int| 0 <= k <= cs.len() && offset(cs, k) == spec_clamp(encode_utf8(cs), x),
{
    let bytes = encode_utf8(cs);
    lemma_offset_full(cs);
    let c = spec_clamp(bytes, x);
    if x >= bytes.len() {
        assert(offset(cs, cs.len() as int) == c);
    } else {
        lemma_clamp_down_boundary(bytes, x);
        lemma_char_boundary(cs, c);
        if c == 0 {
            assert(cs.subrange(0, 0) =~= Seq::<char>::empty());
            assert(offset(cs, 0) == c);
        }
    }
}

/// The view of an optional range.
pub open spec fn range_view(r: Option<std::ops::Range<usize>>) -> Option<(int, int)> {
    match r {
        Some(x) => Some((x.start as int, x.end as int)),
        None => None,
    }
}

/// The selection range of text block `text_id`: `None` unless the block
/// holds the selection and [`spec_selection_range`] is not empty.
pub open spec fn spec_range_for(sel: Option<ActiveSelection>, text_id: usize, bytes: Seq<u8>) -> Option<
    (int, int),
> {
    match sel {
        Some(s) => if s.text_id == text_id {
            spec_selection_range(s, bytes)
        } else {
            None
        },
        None => None,
    }
}

/// The characters between the ends of [`spec_range_for`].
pub open spec fn spec_selected_text(sel: Option<ActiveSelection>, text_id: usize, cs: Seq<char>) -> Option<
    Seq<char>,
> {
    match spec_range_for(sel, text_id, encode_utf8(cs)) {
        Some((a, b)) => Some(cs.subrange(char_index_at(cs, a), char_index_at(cs, b))),
        None => None,
    }
}

impl Default for DetailsState {
    fn default() -> (r: Self)
        ensures
            r.open_view() == Map::<usize, bool>::empty(),
            r.counter_view() == 0,
    {
        DetailsState::new()
    }
}

impl Default for SelectionState {
    fn default() -> (r: Self)
        ensures
            r.selection_view() is None,
            r.counter_view() == 0,
    {
        SelectionState::new()
    }
}

// -- Splitting styled runs at a selection --------------------------------

/// A piece of a styled text run after splitting it at the selection: the
/// index of the run it comes from, its length in bytes, and whether it is
/// selected.
#[derive(Clone, Copy, Debug, PartialEq, Eq, Structural)]
pub struct RunPiece {
    pub run: usize,
    pub len: usize,
    pub selected: bool,
}

/// The pieces of run `i`, which covers `[start, start + len)`: the whole run
/// unselected when it does not meet the selection `[s, e)`; otherwise the
/// part before the selection (if any), the selected part, and the part
/// after it (if any).
pub open spec fn run_pieces(i: usize, start: int, len: int, s: int, e: int) -> Seq<RunPiece> {
    let end = start + len;
    if e <= start || s >= end {
        seq![RunPiece { run: i, len: len as usize, selected: false }]
    } else {
        let os = if s > start {
            s
        } else {
            start
        };
        let oe = if e < end {
            e
        } else {
            end
        };
        (if os > start {
            seq![RunPiece { run: i, len: (os - start) as usize, selected: false }]
        } else {
            Seq::empty()
        }) + seq![RunPiece { run: i, len: (oe - os) as usize, selected: true }] + (if oe < end {
            seq![RunPiece { run: i, len: (end - oe) as usize, selected: false }]
        } else {
            Seq::empty()
        })
    }
}

/// Total length of the first `k` runs.
pub open spec fn runs_total(lens: Seq<usize>, k: int) -> int
    decreases k,
{
    if k <= 0 || k > lens.len() {
        0
    } else {
        runs_total(lens, k - 1) + lens[k - 1]
    }
}

/// The pieces of the first `k` runs, in order.
pub open spec fn all_pieces(lens: Seq<usize>, k: int, s: int, e: int) -> Seq<RunPiece>
    decreases k,
{
    if k <= 0 || k > lens.len() {
        Seq::empty()
    } else {
        all_pieces(lens, k - 1, s, e) + run_pieces(
            (k - 1) as usize,
            runs_total(lens, k - 1),
            lens[k - 1] as int,
            s,
            e,
        )
    }
}

/// Total length of a sequence of pieces.
pub open spec fn pieces_len(ps: Seq<RunPiece>) -> int
    decreases ps.len(),
{
    if ps.len() == 0 {
        0
    } else {
        pieces_len(ps.drop_last()) + ps.last().len
    }
}

/// Total length of the selected pieces.
pub open spec fn selected_len(ps: Seq<RunPiece>) -> int
    decreases ps.len(),
{
    if ps.len() == 0 {
        0
    } else {
        selected_len(ps.drop_last()) + if ps.last().selected {
            ps.last().len as int
        } else {
            0
        }
    }
}

/// Length of the part of `[s, e)` inside `[a, b)`.
pub open spec fn overlap(s: int, e: int, a: int, b: int) -> int {
    let lo = if s > a {
        s
    } else {
        a
    };
    let hi = if e < b {
        e
    } else {
        b
    };
    if hi > lo {
        hi - lo
    } else {
        0
    }
}

proof fn lemma_pieces_concat(a: Seq<RunPiece>, b: Seq<RunPiece>)
    ensures
        pieces_len(a + b) == pieces_len(a) + pieces_len(b),
        selected_len(a + b) == selected_len(a) + selected_len(b),
    decreases b.len(),
{
    if b.len() == 0 {
        assert(a + b =~= a);
    } else {
        lemma_pieces_concat(a, b.drop_last());
        assert((a + b).drop_last() =~= a + b.drop_last());
    }
}

proof fn lemma_one_piece(p: RunPiece)
    ensures
        pieces_len(seq![p]) == p.len,
        selected_len(seq![p]) == if p.selected {
            p.len as int
        } else {
            0
        },
{
    let q = seq![p];
    assert(q.drop_last() =~= Seq::<RunPiece>::empty());
    assert(pieces_len(Seq::<RunPiece>::empty()) == 0);
    assert(selected_len(Seq::<RunPiece>::empty()) == 0);
    assert(pieces_len(q) == pieces_len(q.drop_last()) + q.last().len);
    assert(selected_len(q) == selected_len(q.drop_last()) + if q.last().selected {
        q.last().len as int
    } else {
        0
    });
}

proof fn lemma_run_pieces_len(i: usize, start: int, len: usize, s: int, e: int)
    requires
        0 <= start,
        s <= e,
    ensures
        pieces_len(run_pieces(i, start, len as int, s, e)) == len,
        selected_len(run_pieces(i, start, len as int, s, e)) == overlap(s, e, start, start + len),
{
    let end = start + len;
    assert(pieces_len(Seq::<RunPiece>::empty()) == 0);
    assert(selected_len(Seq::<RunPiece>::empty()) == 0);
    if e <= start || s >= end {
        lemma_one_piece(RunPiece { run: i, len: len, selected: false });
    } else {
        let os = if s > start {
            s
        } else {
            start
        };
        let oe = if e < end {
            e
        } else {
            end
        };
        let pre = if os > start {
            seq![RunPiece { run: i, len: (os - start) as usize, selected: false }]
        } else {
            Seq::empty()
        };
        let mid = seq![RunPiece { run: i, len: (oe - os) as usize, selected: true }];
        let post = if oe < end {
            seq![RunPiece { run: i, len: (end - oe) as usize, selected: false }]
        } else {
            Seq::empty()
        };
        if os > start {
            lemma_one_piece(pre[0]);
            assert(pre =~= seq![pre[0]]);
        }
        lemma_one_piece(mid[0]);
        assert(mid =~= seq![mid[0]]);
        if oe < end {
            lemma_one_piece(post[0]);
            assert(post =~= seq![post[0]]);
        }
        lemma_pieces_concat(pre, mid);
        lemma_pieces_concat(pre + mid, post);
    }
}

/// Splitting runs at a selection loses and duplicates nothing: the pieces
/// add up to the runs' total length, and the selected pieces to the part of
/// the selection that the runs cover.
pub proof fn lemma_pieces_cover(lens: Seq<usize>, k: int, s: int, e: int)
    requires
        0 <= k <= lens.len(),
        0 <= s <= e,
    ensures
        pieces_len(all_pieces(lens, k, s, e)) == runs_total(lens, k),
        selected_len(all_pieces(lens, k, s, e)) == overlap(s, e, 0, runs_total(lens, k)),
    decreases k,
{
    assert(pieces_len(Seq::<RunPiece>::empty()) == 0);
    assert(selected_len(Seq::<RunPiece>::empty()) == 0);
    if k > 0 {
        lemma_pieces_cover(lens, k - 1, s, e);
        lemma_runs_total_nonneg(lens, k - 1);
        let t = runs_total(lens, k - 1);
        lemma_run_pieces_len((k - 1) as usize, t, lens[k - 1], s, e);
        lemma_pieces_concat(
            all_pieces(lens, k - 1, s, e),
            run_pieces((k - 1) as usize, t, lens[k - 1] as int, s, e),
        );
    }
}

proof fn lemma_runs_total_nonneg(lens: Seq<usize>, k: int)
    ensures
        runs_total(lens, k) >= 0,
    decreases k,
{
    if k > 0 && k <= lens.len() {
        lemma_runs_total_nonneg(lens, k - 1);
    }
}

/// Split consecutive styled runs of the given lengths at a selection; the
/// renderer highlights the selected pieces.
pub fn selection_run_pieces(run_lens: &[usize], selection: std::ops::Range<usize>) -> (r: Vec<RunPiece>)
    requires
        runs_total(run_lens@, run_lens@.len() as int) <= usize::MAX,
        selection.start <= selection.end,
    ensures
        r@ == all_pieces(run_lens@, run_lens@.len() as int, selection.start as int, selection.end as int),
{
    let ghost lens = run_lens@;
    let s = selection.start;
    let e = selection.end;
    let mut out: Vec<RunPiece> = Vec::new();
    let mut offset: usize = 0;
    let mut i: usize = 0;
    while i < run_lens.len()
        invariant
            lens == run_lens@,
            i <= run_lens.len(),
            runs_total(lens, lens.len() as int) <= usize::MAX,
            offset == runs_total(lens, i as int),
            out@ == all_pieces(lens, i as int, s as int, e as int),
            s == selection.start,
            e == selection.end,
            s <= e,
        decreases run_lens.len() - i,
    {
        proof {
            lemma_runs_total_mono(lens, i + 1, lens.len() as int);
        }
        let len = run_lens[i];
        let start = offset;
        let end = offset + len;
        let ghost before = out@;
        if e <= start || s >= end {
            out.push(RunPiece { run: i, len, selected: false });
        } else {
            let os = if s > start {
                s
            } else {
                start
            };
            let oe = if e < end {
                e
            } else {
                end
            };
            if os > start {
                out.push(RunPiece { run: i, len: os - start, selected: false });
            }
            out.push(RunPiece { run: i, len: oe - os, selected: true });
            if oe < end {
                out.push(RunPiece { run: i, len: end - oe, selected: false });
            }
        }
        assert(out@ =~= before + run_pieces(i, start as int, len as int, s as int, e as int));
        offset = end;
        i = i + 1;
    }
    out
}

proof fn lemma_runs_total_mono(lens: Seq<usize>, j: int, k: int)
    requires
        0 <= j <= k <= lens.len(),
    ensures
        runs_total(lens, j) <= runs_total(lens, k),
    decreases k - j,
{
    if j < k {
        lemma_runs_total_mono(lens, j, k - 1);
    }
}

} // verus!
