//! Text of code blocks as displayed: the trailing newline dropped, tabs
//! expanded, and the positions of indentation dots.

use crate::text::{chars_of, push_char};
use crate::types::CodeBlock;
use vstd::prelude::*;
use vstd::utf8::encode_utf8;

verus! {

/// At most this many indentation dots are drawn.
pub const INDENT_DOT_MAX_RENDER_COUNT: usize = 600;

/// No indentation dots for texts longer than this (in bytes).
pub const INDENT_DOT_DISABLE_ABOVE_TEXT_LEN: usize = 20_000;

/// `s[i..]` with tabs expanded to the next multiple-of-four column, `col`
/// being the column of `s[i]` modulo four; a newline resets the column.
pub open spec fn expand_from(s: Seq<char>, i: int, col: nat) -> Seq<char>
    decreases s.len() - i,
{
    if i < 0 || i >= s.len() {
        Seq::empty()
    } else if s[i] == '\t' {
        let n = (4 - col % 4) as nat;
        Seq::new(n, |k: int| ' ') + expand_from(s, i + 1, (col + n) % 4)
    } else if s[i] == '\n' {
        seq!['\n'] + expand_from(s, i + 1, 0)
    } else {
        seq![s[i]] + expand_from(s, i + 1, (col + 1) % 4)
    }
}

/// Tabs expanded to spaces with four-column tab stops.
pub open spec fn spec_expand_tabs(s: Seq<char>) -> Seq<char> {
    expand_from(s, 0, 0)
}

/// Expand tab characters to spaces (4-space tab stops).
pub fn expand_tabs(text: &str) -> (r: String)
    ensures
        r@ == spec_expand_tabs(text@),
{
    let v = chars_of(text);
    let mut result = String::new();
    let mut col: usize = 0;
    let mut i: usize = 0;
    while i < v.len()
        invariant
            i <= v.len(),
            col < 4,
            result@ + expand_from(v@, i as int, col as nat) == spec_expand_tabs(v@),
            v@ == text@,
        decreases v.len() - i,
    {
        let ghost before = result@;
        let ch = v[i];
        if ch == '\t' {
            let spaces = 4 - (col % 4);
            let mut k: usize = 0;
            while k < spaces
                invariant
                    k <= spaces,
                    result@ == before + Seq::new(k as nat, |j: int| ' '),
                decreases spaces - k,
            {
                push_char(&mut result, ' ');
                assert(before + Seq::new((k + 1) as nat, |j: int| ' ') =~= (before + Seq::new(
                    k as nat,
                    |j: int| ' ',
                )).push(' '));
                k = k + 1;
            }
            assert(result@ + expand_from(v@, i + 1, ((col + spaces) % 4) as nat) =~= before
                + expand_from(v@, i as int, col as nat));
            col = (col + spaces) % 4;
        } else if ch == '\n' {
            push_char(&mut result, '\n');
            assert(result@ + expand_from(v@, i + 1, 0) =~= before + expand_from(
                v@,
                i as int,
                col as nat,
            ));
            col = 0;
        } else {
            push_char(&mut result, ch);
            assert(result@ + expand_from(v@, i + 1, ((col + 1) % 4) as nat) =~= before + expand_from(
                v@,
                i as int,
                col as nat,
            ));
            col = (col + 1) % 4;
        }
        i = i + 1;
    }
    assert(result@ + Seq::<char>::empty() =~= result@);
    result
}

/// The displayed text of a code block: one trailing newline dropped, then
/// tabs expanded.
pub open spec fn spec_display_value(value: Seq<char>) -> Seq<char> {
    let v = if value.len() > 0 && value.last() == '\n' {
        value.drop_last()
    } else {
        value
    };
    spec_expand_tabs(v)
}

/// Prepare the display text for a code block.
pub fn code_block_display_value(code: &CodeBlock) -> (r: String)
    ensures
        r@ == spec_display_value(code.value@),
{
    let v = chars_of(code.value.as_str());
    let n = if v.len() > 0 && v[v.len() - 1] == '\n' {
        v.len() - 1
    } else {
        v.len()
    };
    let s = crate::text::string_of(&v, 0, n);
    assert(v@.subrange(0, n as int) =~= if v@.len() > 0 && v@.last() == '\n' {
        v@.drop_last()
    } else {
        v@
    });
    expand_tabs(s.as_str())
}

/// The scan state for indentation dots: the positions kept so far, the
/// leading spaces of the current line, whether the line has content, and
/// whether the scan is still in its leading indentation.
pub type DotState = (Seq<usize>, Seq<usize>, bool, bool);

/// One byte of the text at position `ix`: a line break keeps the line's
/// leading spaces when the line had content and starts a new line; a space
/// in the leading indentation is recorded; a tab ends the leading
/// indentation; any other byte (every byte of a non-ASCII character among
/// them) marks content and ends the leading indentation.
pub open spec fn dot_step(st: DotState, ix: usize, b: u8) -> DotState {
    let (kept, leading, saw, lead) = st;
    if b == 10 || b == 13 {
        (if saw {
            kept + leading
        } else {
            kept
        }, Seq::empty(), false, true)
    } else if b == 32 {
        if lead {
            (kept, leading.push(ix), saw, lead)
        } else {
            st
        }
    } else if b == 9 {
        (kept, leading, saw, false)
    } else {
        (kept, leading, true, false)
    }
}

/// [`dot_step`] over the bytes `bs[..n]`.
pub open spec fn dot_fold(bs: Seq<u8>, n: int) -> DotState
    decreases n,
{
    if n <= 0 || n > bs.len() {
        (Seq::empty(), Seq::empty(), false, true)
    } else {
        dot_step(dot_fold(bs, n - 1), (n - 1) as usize, bs[n - 1])
    }
}

/// Every `step`-th position, starting with the first.
pub open spec fn every_nth(ix: Seq<usize>, step: int) -> Seq<usize> {
    Seq::new(((ix.len() + step - 1) / step) as nat, |k: int| ix[k * step])
}

/// At most [`INDENT_DOT_MAX_RENDER_COUNT`] positions: all when there are no
/// more, otherwise evenly sampled with the smallest step that fits.
pub open spec fn spec_limit_dots(ix: Seq<usize>) -> Seq<usize> {
    if ix.len() <= INDENT_DOT_MAX_RENDER_COUNT {
        ix
    } else {
        every_nth(
            ix,
            (ix.len() + INDENT_DOT_MAX_RENDER_COUNT - 1) / (INDENT_DOT_MAX_RENDER_COUNT as int),
        )
    }
}

/// Byte positions of the leading spaces of lines that have content (lines
/// of only whitespace get none; a tab ends a line's leading spaces), for
/// texts of at most [`INDENT_DOT_DISABLE_ABOVE_TEXT_LEN`] bytes that hold a
/// space; limited by [`spec_limit_dots`].
pub open spec fn spec_dot_indices(text: Seq<char>) -> Seq<usize> {
    let bs = encode_utf8(text);
    if bs.len() > INDENT_DOT_DISABLE_ABOVE_TEXT_LEN || !text.contains(' ') {
        Seq::empty()
    } else {
        let st = dot_fold(bs, bs.len() as int);
        spec_limit_dots(
            if st.2 {
                st.0 + st.1
            } else {
                st.0
            },
        )
    }
}

/// Cap the number of dot indices to avoid excessive rendering.
pub fn limit_indentation_dot_indices(indices: Vec<usize>) -> (r: Vec<usize>)
    ensures
        r@ == spec_limit_dots(indices@),
{
    let n = indices.len();
    if n <= INDENT_DOT_MAX_RENDER_COUNT {
        return indices;
    }
    let step = n / INDENT_DOT_MAX_RENDER_COUNT + if n % INDENT_DOT_MAX_RENDER_COUNT != 0 {
        1
    } else {
        0
    };
    assert(step as int == (n + INDENT_DOT_MAX_RENDER_COUNT - 1) / (
    INDENT_DOT_MAX_RENDER_COUNT as int)) by (nonlinear_arith)
        requires
            step as int == n / 600 + if n % 600 != 0 {
                1int
            } else {
                0int
            },
            INDENT_DOT_MAX_RENDER_COUNT == 600,
    ;
    assert(step >= 2) by (nonlinear_arith)
        requires
            step as int == (n + 600 - 1) / 600,
            n > 600,
    ;
    assert(n / step < n) by (nonlinear_arith)
        requires
            step >= 2,
            n > 600,
    ;
    let total = n / step + if n % step != 0 {
        1
    } else {
        0
    };
    assert(total as int == (n + step - 1) / (step as int)) by (nonlinear_arith)
        requires
            step >= 2,
            total as int == n / step + if n % step != 0 {
                1int
            } else {
                0int
            },
    ;
    let mut r: Vec<usize> = Vec::new();
    let mut i: usize = 0;
    let mut k: usize = 0;
    while k < total
        invariant
            n == indices.len(),
            step >= 2,
            total as int == (n + step - 1) / (step as int),
            k <= total,
            k < total ==> i == k * step,
            r@ =~= Seq::new(k as nat, |j: int| indices@[j * step]),
        decreases total - k,
    {
        assert(k * step < n) by (nonlinear_arith)
            requires
                k < total,
                total as int == (n + step - 1) / (step as int),
                step >= 2,
        ;
        r.push(indices[i]);
        k = k + 1;
        if k < total {
            assert(k * step < n) by (nonlinear_arith)
                requires
                    k < total,
                    total as int == (n + step - 1) / (step as int),
                    step >= 2,
            ;
            assert(k * step == i + step) by (nonlinear_arith)
                requires
                    i == (k - 1) * step,
            ;
            i = i + step;
        }
    }
    r
}

/// Collect byte indices of leading spaces in non-blank lines (see
/// [`spec_dot_indices`]).
pub fn collect_indentation_dot_indices(text: &str) -> (r: Vec<usize>)
    ensures
        r@ == spec_dot_indices(text@),
{
    let bs = text.as_bytes();
    let n = bs.len();
    let v = chars_of(text);
    let mut has_space = false;
    let mut j: usize = 0;
    while j < v.len()
        invariant
            j <= v.len(),
            v@ == text@,
            has_space == exists|m: int| 0 <= m < j && v@[m] == ' ',
        decreases v.len() - j,
    {
        if v[j] == ' ' {
            has_space = true;
        }
        j = j + 1;
    }
    proof {
        if has_space {
            let m = choose|m: int| 0 <= m < v.len() && v@[m] == ' ';
            assert(text@.contains(' ')) by {
                assert(text@[m] == ' ');
            }
        } else {
            assert(!text@.contains(' '));
        }
    }
    if n > INDENT_DOT_DISABLE_ABOVE_TEXT_LEN || !has_space {
        return Vec::new();
    }
    let mut indices: Vec<usize> = Vec::new();
    let mut leading: Vec<usize> = Vec::new();
    let mut saw = false;
    let mut lead = true;
    let mut i: usize = 0;
    while i < n
        invariant
            n == bs@.len(),
            bs@ == encode_utf8(text@),
            i <= n,
            dot_fold(bs@, i as int) == (indices@, leading@, saw, lead),
        decreases n - i,
    {
        let b = bs[i];
        if b == 10 || b == 13 {
            if saw {
                let mut k: usize = 0;
                let ghost base = indices@;
                while k < leading.len()
                    invariant
                        k <= leading.len(),
                        indices@ == base + leading@.subrange(0, k as int),
                    decreases leading.len() - k,
                {
                    indices.push(leading[k]);
                    assert(leading@.subrange(0, k + 1) =~= leading@.subrange(0, k as int).push(
                        leading@[k as int],
                    ));
                    k = k + 1;
                }
                assert(leading@.subrange(0, leading@.len() as int) =~= leading@);
            }
            leading = Vec::new();
            saw = false;
            lead = true;
        } else if b == 32 {
            if lead {
                leading.push(i);
            }
        } else if b == 9 {
            lead = false;
        } else {
            saw = true;
            lead = false;
        }
        i = i + 1;
    }
    if saw {
        let mut k: usize = 0;
        let ghost base = indices@;
        while k < leading.len()
            invariant
                k <= leading.len(),
                indices@ == base + leading@.subrange(0, k as int),
            decreases leading.len() - k,
        {
            indices.push(leading[k]);
            assert(leading@.subrange(0, k + 1) =~= leading@.subrange(0, k as int).push(
                leading@[k as int],
            ));
            k = k + 1;
        }
        assert(leading@.subrange(0, leading@.len() as int) =~= leading@);
    }
    limit_indentation_dot_indices(indices)
}

} // verus!
