//! The marker shown before a list item: its number for ordered lists, a
//! checkbox for task items, a bullet otherwise.

use crate::text::push_char;
use vstd::prelude::*;

verus! {

/// The character of the decimal digit `d` (0–9).
pub open spec fn digit_char(d: int) -> char {
    ((d + 48) as u8) as char
}

/// The decimal digits of `n`, most significant first.
pub open spec fn decimal(n: nat) -> Seq<char>
    decreases n,
{
    if n < 10 {
        seq![digit_char(n as int)]
    } else {
        decimal(n / 10).push(digit_char((n % 10) as int))
    }
}

/// Append the decimal digits of `n`.
fn push_decimal(s: &mut String, n: u64)
    ensures
        final(s)@ == old(s)@ + decimal(n as nat),
    decreases n,
{
    if n >= 10 {
        push_decimal(s, n / 10);
    }
    let d = (n % 10) as u8;
    push_char(s, (d + 48) as char);
    proof {
        if n < 10 {
            assert(old(s)@ + decimal(n as nat) =~= old(s)@.push(digit_char(n as int)));
        }
    }
}

/// The marker of a list item: `start + index` and a dot for an ordered
/// list; `☑` or `☐` for a checked or unchecked task item; `•` otherwise.
pub open spec fn spec_list_bullet(ordered: bool, start: u64, index: u64, checked: Option<bool>) -> Seq<
    char,
> {
    if ordered {
        decimal((start + index) as nat).push('.')
    } else {
        match checked {
            Some(true) => seq!['\u{2611}'],
            Some(false) => seq!['\u{2610}'],
            None => seq!['\u{2022}'],
        }
    }
}

/// The marker of the item at `index` in a list starting at `start`.
pub fn list_bullet(ordered: bool, start: u64, index: u64, checked: Option<bool>) -> (r: String)
    requires
        ordered ==> start + index <= u64::MAX,
    ensures
        r@ == spec_list_bullet(ordered, start, index, checked),
{
    let mut s = String::new();
    if ordered {
        push_decimal(&mut s, start + index);
        push_char(&mut s, '.');
    } else {
        match checked {
            Some(true) => push_char(&mut s, '\u{2611}'),
            Some(false) => push_char(&mut s, '\u{2610}'),
            None => push_char(&mut s, '\u{2022}'),
        }
    }
    proof {
        assert(s@ =~= spec_list_bullet(ordered, start, index, checked));
    }
    s
}

} // verus!
