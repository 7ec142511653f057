//! Small shared helpers.

use vstd::prelude::*;

use crate::text::{ascii_lower, ascii_lower_of, chars_equal, chars_of, trim, trim_bounds};

verus! {

/// The spellings of "off" that an operator is likely to write, already trimmed and lower-cased.
pub open spec fn is_falsey_word(w: Seq<char>) -> bool {
    ||| w == seq!['0']
    ||| w == seq!['f', 'a', 'l', 's', 'e']
    ||| w == seq!['o', 'f', 'f']
    ||| w == seq!['n', 'o']
    ||| w.len() == 0
}

/// Parse an operator-supplied boolean the forgiving way.
///
/// An operator who writes `GRAPH_COMPRESSION=false` means it, and silently treating that as
/// "on" because the code only checked for `"0"` is a confusing way to disagree with them.
/// Everything except `0`, `false`, `off`, `no` and the empty string (ignoring surrounding white
/// space and ASCII case) is "on".
pub fn truthy(raw: &str) -> (r: bool)
    ensures
        r == !is_falsey_word(ascii_lower(trim(raw@))),
{
    let chars = chars_of(raw);
    let (a, b) = trim_bounds(&chars);
    let mut lowered: Vec<char> = Vec::new();
    let mut i: usize = a;
    while i < b
        invariant
            a <= i <= b <= chars.len(),
            lowered@ == ascii_lower(chars@.subrange(a as int, i as int)),
        decreases b - i,
    {
        lowered.push(ascii_lower_of(chars[i]));
        i = i + 1;
        assert(chars@.subrange(a as int, i as int) =~= chars@.subrange(a as int, (i - 1) as int).push(chars@[i - 1]));
        assert(lowered@ =~= ascii_lower(chars@.subrange(a as int, i as int)));
    }
    let zero = ['0'];
    let off_false = ['f', 'a', 'l', 's', 'e'];
    let off = ['o', 'f', 'f'];
    let no = ['n', 'o'];
    let falsey = lowered.len() == 0 || chars_equal(lowered.as_slice(), &zero) || chars_equal(
        lowered.as_slice(),
        &off_false,
    ) || chars_equal(lowered.as_slice(), &off) || chars_equal(lowered.as_slice(), &no);
    proof {
        assert(zero@ =~= seq!['0']);
        assert(off_false@ =~= seq!['f', 'a', 'l', 's', 'e']);
        assert(off@ =~= seq!['o', 'f', 'f']);
        assert(no@ =~= seq!['n', 'o']);
    }
    !falsey
}

} // verus!
