//! Line-count estimates used to estimate the rendered height of markdown
//! blocks (the pixel arithmetic itself is floating point and lives with the
//! renderer).

use crate::text::chars_of;
use crate::types::{inline_to_plain_text, inlines_view, plain_seq, Inline};
use vstd::prelude::*;

verus! {

/// Visual lines a text line of `count` characters takes when wrapped at
/// `wrap_columns` (at least one column): one for an empty line, otherwise
/// the count divided by the columns, rounded up.
pub open spec fn wrapped_lines(count: int, wrap_columns: int) -> int {
    let w = if wrap_columns >= 1 {
        wrap_columns
    } else {
        1
    };
    if count == 0 {
        1
    } else {
        (count + w - 1) / w
    }
}

/// Estimate how many visual lines a single text line occupies after wrapping.
pub fn estimate_wrapped_text_lines(line: &str, wrap_columns: usize) -> (r: usize)
    ensures
        r == wrapped_lines(line@.len() as int, wrap_columns as int),
        r >= 1,
{
    let w = if wrap_columns >= 1 {
        wrap_columns
    } else {
        1
    };
    let v = chars_of(line);
    let count = v.len();
    if count == 0 {
        return 1;
    }
    let q = count / w;
    assert(count % w != 0 ==> q < usize::MAX) by (nonlinear_arith)
        requires
            w >= 1,
            q == count / w,
            count <= usize::MAX,
    ;
    let r = if count % w != 0 {
        q + 1
    } else {
        q
    };
    assert(r as int == (count as int + w as int - 1) / (w as int)) by (nonlinear_arith)
        requires
            w >= 1,
            q == count / w,
            r as int == if count % w != 0 {
                q as int + 1
            } else {
                q as int
            },
    ;
    assert(r >= 1) by (nonlinear_arith)
        requires
            w >= 1,
            count >= 1,
            r as int == (count as int + w as int - 1) / (w as int),
    ;
    r
}

/// The pieces of `s` between `\n` characters, from index `i` on: the
/// number of characters of each piece.
pub open spec fn piece_lens(s: Seq<char>, i: int, cur: int) -> Seq<int>
    decreases s.len() - i,
{
    if i < 0 || i >= s.len() {
        seq![cur]
    } else if s[i] == '\n' {
        seq![cur] + piece_lens(s, i + 1, 0)
    } else {
        piece_lens(s, i + 1, cur + 1)
    }
}

/// The wrapped lines of each piece, summed.
pub open spec fn sum_wrapped(ps: Seq<int>, wrap_columns: int) -> int
    decreases ps.len(),
{
    if ps.len() == 0 {
        0
    } else {
        sum_wrapped(ps.subrange(0, ps.len() - 1), wrap_columns) + wrapped_lines(
            ps[ps.len() - 1],
            wrap_columns,
        )
    }
}

/// Visual lines of a text: one for an empty text; otherwise the wrapped
/// lines of each `\n`-separated line, summed (at least one).
pub open spec fn text_lines(text: Seq<char>, wrap_columns: int) -> int {
    if text.len() == 0 {
        1
    } else {
        let t = sum_wrapped(piece_lens(text, 0, 0), wrap_columns);
        if t >= 1 {
            t
        } else {
            1
        }
    }
}

proof fn lemma_piece_step(s: Seq<char>, i: int, cur: int, acc: Seq<int>)
    requires
        0 <= i < s.len(),
    ensures
        s[i] == '\n' ==> acc + piece_lens(s, i, cur) == acc.push(cur) + piece_lens(s, i + 1, 0),
        s[i] != '\n' ==> acc + piece_lens(s, i, cur) == acc + piece_lens(s, i + 1, cur + 1),
{
    if s[i] == '\n' {
        assert(acc + (seq![cur] + piece_lens(s, i + 1, 0)) =~= acc.push(cur) + piece_lens(
            s,
            i + 1,
            0,
        ));
    }
}

proof fn lemma_sum_push(ps: Seq<int>, x: int, w: int)
    ensures
        sum_wrapped(ps.push(x), w) == sum_wrapped(ps, w) + wrapped_lines(x, w),
{
    assert(ps.push(x).subrange(0, ps.len() as int) =~= ps);
}

proof fn lemma_wrapped_bounds(c: int, w: int)
    requires
        c >= 0,
    ensures
        1 <= wrapped_lines(c, w) <= c + 1,
{
    let ww = if w >= 1 {
        w
    } else {
        1
    };
    if c > 0 {
        assert(1 <= (c + ww - 1) / ww <= c + 1) by (nonlinear_arith)
            requires
                ww >= 1,
                c >= 1,
        ;
    }
}

/// Estimate how many visual lines a text occupies (see [`text_lines`]);
/// the count saturates at `usize::MAX`.
pub fn estimate_text_lines(text: &str, wrap_columns: usize) -> (r: usize)
    ensures
        r == if text_lines(text@, wrap_columns as int) <= usize::MAX {
            text_lines(text@, wrap_columns as int)
        } else {
            usize::MAX as int
        },
{
    let v = chars_of(text);
    let ghost s = v@;
    if v.len() == 0 {
        return 1;
    }
    let w = if wrap_columns >= 1 {
        wrap_columns
    } else {
        1
    };
    let mut total: usize = 0;
    let mut cur: usize = 0;
    let mut i: usize = 0;
    let ghost mut done: Seq<int> = Seq::empty();
    let ghost mut exact: int = 0;
    while i < v.len()
        invariant
            s == v@,
            s == text@,
            i <= v.len(),
            w >= 1,
            w == wrap_columns || (wrap_columns == 0 && w == 1),
            cur <= i,
            done + piece_lens(s, i as int, cur as int) == piece_lens(s, 0, 0),
            exact == sum_wrapped(done, wrap_columns as int),
            exact >= 0,
            total == if exact <= usize::MAX {
                exact
            } else {
                usize::MAX as int
            },
        decreases v.len() - i,
    {
        proof {
            lemma_piece_step(s, i as int, cur as int, done);
        }
        if v[i] == '\n' {
            assert(cur % w != 0 ==> cur / w < usize::MAX) by (nonlinear_arith)
                requires
                    w >= 1,
                    cur <= usize::MAX,
            ;
            let n = if cur == 0 {
                1
            } else {
                cur / w + if cur % w != 0 {
                    1
                } else {
                    0
                }
            };
            proof {
                assert(n == wrapped_lines(cur as int, w as int)) by (nonlinear_arith)
                    requires
                        w >= 1,
                        n as int == if cur == 0 {
                            1int
                        } else {
                            (cur / w) as int + if cur % w != 0 {
                                1int
                            } else {
                                0int
                            }
                        },
                ;
                assert(wrapped_lines(cur as int, w as int) == wrapped_lines(cur as int, wrap_columns as int));
                lemma_sum_push(done, cur as int, wrap_columns as int);
                lemma_wrapped_bounds(cur as int, wrap_columns as int);
                done = done.push(cur as int);
                exact = exact + n;
            }
            total = total.saturating_add(n);
            cur = 0;
        } else {
            cur = cur + 1;
        }
        i = i + 1;
    }
    assert(cur % w != 0 ==> cur / w < usize::MAX) by (nonlinear_arith)
        requires
            w >= 1,
            cur <= usize::MAX,
    ;
    let n = if cur == 0 {
        1
    } else {
        cur / w + if cur % w != 0 {
            1
        } else {
            0
        }
    };
    let ghost fin = exact + n;
    proof {
        assert(n == wrapped_lines(cur as int, w as int)) by (nonlinear_arith)
            requires
                w >= 1,
                n as int == if cur == 0 {
                    1int
                } else {
                    (cur / w) as int + if cur % w != 0 {
                        1int
                    } else {
                        0int
                    }
                },
        ;
        assert(wrapped_lines(cur as int, w as int) == wrapped_lines(cur as int, wrap_columns as int));
        assert(piece_lens(s, i as int, cur as int) == seq![cur as int]);
        assert(done.push(cur as int) =~= piece_lens(s, 0, 0));
        lemma_sum_push(done, cur as int, wrap_columns as int);
        lemma_wrapped_bounds(cur as int, wrap_columns as int);
        assert(sum_wrapped(piece_lens(s, 0, 0), wrap_columns as int) == fin);
        assert(fin >= 1);
    }
    total = total.saturating_add(n);
    assert(total == if fin <= usize::MAX {
        fin
    } else {
        usize::MAX as int
    });
    if total == 0 {
        1
    } else {
        total
    }
}

/// Estimate how many visual lines a set of inlines occupies: the lines of
/// their plain text (see [`text_lines`]), saturating at `usize::MAX`.
pub fn estimate_inline_lines(inlines: &[Inline], wrap_columns: usize) -> (r: usize)
    ensures
        r == if text_lines(plain_seq(inlines_view(inlines@)), wrap_columns as int) <= usize::MAX {
            text_lines(plain_seq(inlines_view(inlines@)), wrap_columns as int)
        } else {
            usize::MAX as int
        },
{
    let text = inline_to_plain_text(inlines);
    estimate_text_lines(text.as_str(), wrap_columns)
}

} // verus!
