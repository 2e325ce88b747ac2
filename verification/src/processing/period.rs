//! Step 9: a short one-line sentence loses its final 。.
use vstd::prelude::*;

use crate::chars::{chars_of, skip_white, skip_white_back, slice_of, string_of, trim, trim_end};

verus! {

/// A one-line text (once trimmed) that ends in 。 (trailing white space
/// aside), with no other 。！？ and at most five characters before the 。
/// once trimmed, loses the 。 and the white space after it; any other text
/// is returned unchanged.
pub open spec fn spec_strip_short_trailing_period(s: Seq<char>) -> Seq<char> {
    let t = trim_end(s);
    if s.len() == 0 {
        s
    } else if trim(s).contains('\n') {
        s
    } else if t.len() > 0 && t.last() == '。' {
        let body = t.drop_last();
        if !body.contains('。') && !body.contains('！') && !body.contains('？') && trim(body).len()
            <= 5 {
            body
        } else {
            s
        }
    } else {
        s
    }
}

/// Whether `c` occurs in `v[lo..hi]`.
fn contains_in(v: &Vec<char>, lo: usize, hi: usize, c: char) -> (b: bool)
    requires
        lo <= hi <= v.len(),
    ensures
        b == v@.subrange(lo as int, hi as int).contains(c),
{
    let mut i: usize = lo;
    while i < hi
        invariant
            lo <= i <= hi <= v.len(),
            forall|k: int| lo <= k < i ==> v@[k] != c,
        decreases hi - i,
    {
        if v[i] == c {
            assert(v@.subrange(lo as int, hi as int)[i - lo] == c);
            return true;
        }
        i += 1;
    }
    assert forall|k: int| 0 <= k < hi - lo implies v@.subrange(lo as int, hi as int)[k] != c by {
        assert(v@.subrange(lo as int, hi as int)[k] == v@[lo + k]);
    }
    false
}

/// Removes the final 。 of a short one-line sentence (你好。 becomes 你好).
pub fn strip_short_trailing_period(text: &str) -> (res: String)
    ensures
        res@ == spec_strip_short_trailing_period(text@),
{
    let v = chars_of(text);
    let n = v.len();
    if n == 0 {
        return String::new();
    }
    assert(v@.subrange(0, n as int) =~= v@);
    let a = skip_white(&v, 0, n);
    let b = skip_white_back(&v, a, n);
    assert(trim(v@) == v@.subrange(a as int, b as int));
    if contains_in(&v, a, b, '\n') {
        return string_of(&v);
    }
    let e = skip_white_back(&v, 0, n);
    assert(trim_end(v@) == v@.subrange(0, e as int));
    if e > 0 && v[e - 1] == '。' {
        let ghost body = v@.subrange(0, e - 1);
        assert(trim_end(v@).drop_last() =~= body);
        if !contains_in(&v, 0, e - 1, '。') && !contains_in(&v, 0, e - 1, '！') && !contains_in(
            &v,
            0,
            e - 1,
            '？',
        ) {
            let p = skip_white(&v, 0, e - 1);
            let q = skip_white_back(&v, p, e - 1);
            assert(trim(body) == v@.subrange(p as int, q as int));
            if q - p <= 5 {
                return string_of(&slice_of(&v, 0, e - 1));
            }
        }
    }
    string_of(&v)
}

} // verus!
