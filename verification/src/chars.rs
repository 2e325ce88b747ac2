//! Character-sequence toolkit shared by the text steps: the model of a
//! string as `Seq<char>`, Unicode white space, trimming, and literal
//! replacement, each with an executable counterpart over `Vec<char>`.
use vstd::prelude::*;

verus! {

/// Appending one character to a `String` appends it to its view.
pub assume_specification[ String::push ](s: &mut String, ch: char)
    ensures
        final(s)@ == old(s)@.push(ch),
;

/// Unicode `White_Space`: what `char::is_whitespace`, `str::trim` and the
/// regex class `\s` all test for.
pub open spec fn is_white(c: char) -> bool {
    ||| '\t' <= c && c <= '\r'
    ||| c == ' '
    ||| c == '\u{85}'
    ||| c == '\u{A0}'
    ||| c == '\u{1680}'
    ||| '\u{2000}' <= c && c <= '\u{200A}'
    ||| c == '\u{2028}'
    ||| c == '\u{2029}'
    ||| c == '\u{202F}'
    ||| c == '\u{205F}'
    ||| c == '\u{3000}'
}

pub open spec fn white() -> spec_fn(char) -> bool {
    |c: char| is_white(c)
}

/// CJK Unified Ideographs, U+4E00..=U+9FFF.
pub open spec fn is_cjk(c: char) -> bool {
    '\u{4E00}' <= c && c <= '\u{9FFF}'
}

pub fn is_white_char(c: char) -> (b: bool)
    ensures
        b == is_white(c),
{
    (c >= '\t' && c <= '\r') || c == ' ' || c == '\u{85}' || c == '\u{A0}' || c == '\u{1680}'
        || (c >= '\u{2000}' && c <= '\u{200A}') || c == '\u{2028}' || c == '\u{2029}'
        || c == '\u{202F}' || c == '\u{205F}' || c == '\u{3000}'
}

pub fn is_cjk_char(c: char) -> (b: bool)
    ensures
        b == is_cjk(c),
{
    c >= '\u{4E00}' && c <= '\u{9FFF}'
}

/// Drops the characters satisfying `p` from the front.
pub open spec fn trim_start_by(s: Seq<char>, p: spec_fn(char) -> bool) -> Seq<char>
    decreases s.len(),
{
    if s.len() > 0 && p(s[0]) {
        trim_start_by(s.drop_first(), p)
    } else {
        s
    }
}

/// Drops the characters satisfying `p` from the back.
pub open spec fn trim_end_by(s: Seq<char>, p: spec_fn(char) -> bool) -> Seq<char>
    decreases s.len(),
{
    if s.len() > 0 && p(s.last()) {
        trim_end_by(s.drop_last(), p)
    } else {
        s
    }
}

/// `str::trim_end`.
pub open spec fn trim_end(s: Seq<char>) -> Seq<char> {
    trim_end_by(s, white())
}

/// `str::trim`.
pub open spec fn trim(s: Seq<char>) -> Seq<char> {
    trim_end_by(trim_start_by(s, white()), white())
}

/// `str::replace` with a literal pattern: the leftmost occurrences, taken
/// without overlap from left to right, each become `rep`.
pub open spec fn replace_all(s: Seq<char>, pat: Seq<char>, rep: Seq<char>) -> Seq<char>
    decreases s.len(),
{
    if s.len() == 0 {
        s
    } else if pat.len() > 0 && pat.len() <= s.len() && s.take(pat.len() as int) == pat {
        rep + replace_all(s.skip(pat.len() as int), pat, rep)
    } else {
        seq![s[0]] + replace_all(s.drop_first(), pat, rep)
    }
}

/// Whether `pat` occurs in `s` at position `i`.
pub open spec fn occurs_at(s: Seq<char>, pat: Seq<char>, i: int) -> bool {
    0 <= i && i + pat.len() <= s.len() && s.subrange(i, i + pat.len()) == pat
}

/// Whether `pat` occurs anywhere in `s`.
pub open spec fn contains_seq(s: Seq<char>, pat: Seq<char>) -> bool {
    exists|i: int| occurs_at(s, pat, i)
}

pub fn chars_of(s: &str) -> (v: Vec<char>)
    ensures
        v@ == s@,
{
    let mut v: Vec<char> = Vec::new();
    for c in it: s.chars()
        invariant
            v@ == it.seq().take(it.index() as int),
    {
        v.push(c);
    }
    v
}

pub fn string_of(v: &Vec<char>) -> (s: String)
    ensures
        s@ == v@,
{
    let mut s = String::new();
    let mut i: usize = 0;
    while i < v.len()
        invariant
            i <= v.len(),
            s@ == v@.take(i as int),
        decreases v.len() - i,
    {
        s.push(v[i]);
        i += 1;
        assert(s@ == v@.take(i as int));
    }
    assert(v@.take(v.len() as int) == v@);
    s
}

/// Appends `w` to `out`.
pub fn push_all(out: &mut Vec<char>, w: &Vec<char>)
    ensures
        final(out)@ == old(out)@ + w@,
{
    let mut i: usize = 0;
    while i < w.len()
        invariant
            i <= w.len(),
            out@ == old(out)@ + w@.take(i as int),
        decreases w.len() - i,
    {
        out.push(w[i]);
        i += 1;
        assert(w@.take(i as int) == w@.take(i - 1) + seq![w@[i - 1]]);
    }
    assert(w@.take(w.len() as int) == w@);
}

/// A copy of `v[lo..hi]`.
pub fn slice_of(v: &Vec<char>, lo: usize, hi: usize) -> (r: Vec<char>)
    requires
        lo <= hi <= v.len(),
    ensures
        r@ == v@.subrange(lo as int, hi as int),
{
    let mut r: Vec<char> = Vec::new();
    let mut i: usize = lo;
    while i < hi
        invariant
            lo <= i <= hi <= v.len(),
            r@ == v@.subrange(lo as int, i as int),
        decreases hi - i,
    {
        r.push(v[i]);
        i += 1;
        assert(r@ == v@.subrange(lo as int, i as int));
    }
    r
}

/// Whether `pat` occurs in `v` at position `i`.
pub fn matches_at(v: &Vec<char>, pat: &Vec<char>, i: usize) -> (b: bool)
    requires
        i <= v.len(),
    ensures
        b == occurs_at(v@, pat@, i as int),
{
    if pat.len() > v.len() - i {
        return false;
    }
    let mut k: usize = 0;
    while k < pat.len()
        invariant
            k <= pat.len(),
            i + pat.len() <= v.len(),
            forall|j: int| 0 <= j < k ==> v@[i + j] == pat@[j],
        decreases pat.len() - k,
    {
        if v[i + k] != pat[k] {
            assert(v@.subrange(i as int, i + pat.len())[k as int] != pat@[k as int]);
            return false;
        }
        k += 1;
    }
    assert(v@.subrange(i as int, i + pat.len()) =~= pat@);
    true
}

pub proof fn lemma_trim_start_step(s: Seq<char>, p: spec_fn(char) -> bool, i: int)
    requires
        0 <= i < s.len(),
        p(s[i]),
    ensures
        trim_start_by(s.skip(i), p) == trim_start_by(s.skip(i + 1), p),
{
    assert(s.skip(i).drop_first() =~= s.skip(i + 1));
}

pub proof fn lemma_trim_end_step(s: Seq<char>, p: spec_fn(char) -> bool, j: int)
    requires
        0 < j <= s.len(),
        p(s[j - 1]),
    ensures
        trim_end_by(s.take(j), p) == trim_end_by(s.take(j - 1), p),
{
    assert(s.take(j).drop_last() =~= s.take(j - 1));
}

/// The index of the first character of `v[lo..hi]` that is not white space
/// (or `hi`): `v[start..hi]` is `v[lo..hi]` without its leading white space.
pub fn skip_white(v: &Vec<char>, lo: usize, hi: usize) -> (start: usize)
    requires
        lo <= hi <= v.len(),
    ensures
        lo <= start <= hi,
        trim_start_by(v@.subrange(lo as int, hi as int), white()) == v@.subrange(
            start as int,
            hi as int,
        ),
        forall|k: int| lo <= k < start ==> is_white(#[trigger] v@[k]),
{
    let ghost s = v@.subrange(lo as int, hi as int);
    assert(s.skip(0) =~= s);
    let mut i: usize = lo;
    while i < hi && is_white_char(v[i])
        invariant
            lo <= i <= hi <= v.len(),
            s == v@.subrange(lo as int, hi as int),
            trim_start_by(s, white()) == trim_start_by(s.skip(i - lo), white()),
            forall|k: int| lo <= k < i ==> is_white(#[trigger] v@[k]),
        decreases hi - i,
    {
        proof {
            lemma_trim_start_step(s, white(), i - lo);
        }
        i += 1;
    }
    assert(s.skip(i - lo) =~= v@.subrange(i as int, hi as int));
    i
}

/// The end of `v[lo..hi]` once its trailing white space is dropped.
pub fn skip_white_back(v: &Vec<char>, lo: usize, hi: usize) -> (end: usize)
    requires
        lo <= hi <= v.len(),
    ensures
        lo <= end <= hi,
        trim_end_by(v@.subrange(lo as int, hi as int), white()) == v@.subrange(
            lo as int,
            end as int,
        ),
        forall|k: int| end <= k < hi ==> is_white(#[trigger] v@[k]),
{
    let ghost s = v@.subrange(lo as int, hi as int);
    assert(s.take(s.len() as int) =~= s);
    let mut j: usize = hi;
    while j > lo && is_white_char(v[j - 1])
        invariant
            lo <= j <= hi <= v.len(),
            s == v@.subrange(lo as int, hi as int),
            trim_end_by(s, white()) == trim_end_by(s.take(j - lo), white()),
            forall|k: int| j <= k < hi ==> is_white(#[trigger] v@[k]),
        decreases j - lo,
    {
        proof {
            lemma_trim_end_step(s, white(), j - lo);
        }
        j -= 1;
    }
    assert(s.take(j - lo) =~= v@.subrange(lo as int, j as int));
    j
}

/// `str::trim` on a character vector.
pub fn trim_vec(v: &Vec<char>) -> (r: Vec<char>)
    ensures
        r@ == trim(v@),
{
    assert(v@.subrange(0, v.len() as int) =~= v@);
    let start = skip_white(v, 0, v.len());
    let end = skip_white_back(v, start, v.len());
    slice_of(v, start, end)
}

/// `str::replace` with a literal pattern on a character vector.
pub fn replace_all_vec(v: &Vec<char>, pat: &Vec<char>, rep: &Vec<char>) -> (r: Vec<char>)
    ensures
        r@ == replace_all(v@, pat@, rep@),
{
    let mut out: Vec<char> = Vec::new();
    let mut i: usize = 0;
    assert(v@.skip(0) =~= v@);
    while i < v.len()
        invariant
            i <= v.len(),
            out@ + replace_all(v@.skip(i as int), pat@, rep@) == replace_all(v@, pat@, rep@),
        decreases v.len() - i,
    {
        let ghost t = v@.skip(i as int);
        if pat.len() > 0 && matches_at(v, pat, i) {
            assert(t.take(pat.len() as int) =~= v@.subrange(i as int, i + pat.len()));
            assert(t.skip(pat.len() as int) =~= v@.skip(i + pat.len()));
            push_all(&mut out, rep);
            i += pat.len();
        } else {
            proof {
                if pat.len() > 0 && pat.len() <= t.len() {
                    assert(t.take(pat.len() as int) =~= v@.subrange(i as int, i + pat.len()));
                }
            }
            assert(t.drop_first() =~= v@.skip(i + 1));
            out.push(v[i]);
            i += 1;
        }
    }
    assert(v@.skip(i as int) =~= Seq::<char>::empty());
    out
}

/// Whether two character vectors hold the same characters.
pub fn same_chars(a: &Vec<char>, b: &Vec<char>) -> (r: bool)
    ensures
        r == (a@ == b@),
{
    if a.len() != b.len() {
        return false;
    }
    let mut i: usize = 0;
    while i < a.len()
        invariant
            a.len() == b.len(),
            i <= a.len(),
            forall|k: int| 0 <= k < i ==> a@[k] == b@[k],
        decreases a.len() - i,
    {
        if a[i] != b[i] {
            return false;
        }
        i += 1;
    }
    assert(a@ =~= b@);
    true
}

pub proof fn lemma_contains_concat(a: Seq<char>, b: Seq<char>, c: char)
    ensures
        (a + b).contains(c) <==> a.contains(c) || b.contains(c),
{
    if (a + b).contains(c) {
        let i = choose|i: int| 0 <= i < (a + b).len() && (a + b)[i] == c;
        if i < a.len() {
            assert(a[i] == c);
        } else {
            assert(b[i - a.len()] == c);
        }
    }
    if a.contains(c) {
        let i = choose|i: int| 0 <= i < a.len() && a[i] == c;
        assert((a + b)[i] == c);
    }
    if b.contains(c) {
        let i = choose|i: int| 0 <= i < b.len() && b[i] == c;
        assert((a + b)[a.len() + i] == c);
    }
}

/// Trimming brings in no character.
pub proof fn lemma_trim_start_absent(s: Seq<char>, p: spec_fn(char) -> bool, c: char)
    requires
        !s.contains(c),
    ensures
        !trim_start_by(s, p).contains(c),
    decreases s.len(),
{
    if s.len() > 0 && p(s[0]) {
        assert forall|i: int| 0 <= i < s.drop_first().len() implies s.drop_first()[i] != c by {
            assert(s.drop_first()[i] == s[i + 1]);
        }
        lemma_trim_start_absent(s.drop_first(), p, c);
    }
}

pub proof fn lemma_trim_end_absent(s: Seq<char>, p: spec_fn(char) -> bool, c: char)
    requires
        !s.contains(c),
    ensures
        !trim_end_by(s, p).contains(c),
    decreases s.len(),
{
    if s.len() > 0 && p(s.last()) {
        assert forall|i: int| 0 <= i < s.drop_last().len() implies s.drop_last()[i] != c by {
            assert(s.drop_last()[i] == s[i]);
        }
        lemma_trim_end_absent(s.drop_last(), p, c);
    }
}

/// A piece of a text holds no character that the text does not hold.
pub proof fn lemma_subrange_absent(s: Seq<char>, a: int, b: int, c: char)
    requires
        0 <= a <= b <= s.len(),
        !s.contains(c),
    ensures
        !s.subrange(a, b).contains(c),
{
    assert forall|i: int| 0 <= i < b - a implies s.subrange(a, b)[i] != c by {
        assert(s.subrange(a, b)[i] == s[a + i]);
    }
}

/// Replacing never brings in a character that neither the text nor the
/// replacement holds.
pub proof fn lemma_replace_all_no_new_char(s: Seq<char>, pat: Seq<char>, rep: Seq<char>, c: char)
    requires
        !s.contains(c),
        !rep.contains(c),
    ensures
        !replace_all(s, pat, rep).contains(c),
    decreases s.len(),
{
    if s.len() > 0 {
        if pat.len() > 0 && pat.len() <= s.len() && s.take(pat.len() as int) == pat {
            assert forall|i: int| 0 <= i < s.skip(pat.len() as int).len() implies s.skip(
                pat.len() as int,
            )[i] != c by {
                assert(s.skip(pat.len() as int)[i] == s[i + pat.len()]);
            }
            lemma_replace_all_no_new_char(s.skip(pat.len() as int), pat, rep, c);
            lemma_contains_concat(rep, replace_all(s.skip(pat.len() as int), pat, rep), c);
        } else {
            assert forall|i: int| 0 <= i < s.drop_first().len() implies s.drop_first()[i] != c by {
                assert(s.drop_first()[i] == s[i + 1]);
            }
            lemma_replace_all_no_new_char(s.drop_first(), pat, rep, c);
            assert(s[0] != c);
            lemma_contains_concat(seq![s[0]], replace_all(s.drop_first(), pat, rep), c);
        }
    }
}

/// Replacing a character by a text without it leaves none of it.
pub proof fn lemma_replace_char_gone(s: Seq<char>, x: char, rep: Seq<char>)
    requires
        !rep.contains(x),
    ensures
        !replace_all(s, seq![x], rep).contains(x),
    decreases s.len(),
{
    if s.len() > 0 {
        if s[0] == x {
            assert(s.take(1) =~= seq![x]);
            lemma_replace_char_gone(s.skip(1), x, rep);
            lemma_contains_concat(rep, replace_all(s.skip(1), seq![x], rep), x);
        } else {
            assert(s.take(1) != seq![x]) by {
                assert(s.take(1)[0] != seq![x][0]);
            }
            lemma_replace_char_gone(s.drop_first(), x, rep);
            lemma_contains_concat(seq![s[0]], replace_all(s.drop_first(), seq![x], rep), x);
        }
    }
}

/// Where `pat` starts nowhere within `x` (in `x + t`), replacing in `x + t`
/// keeps `x` and replaces in `t`.
pub proof fn lemma_replace_all_prefix_kept(x: Seq<char>, t: Seq<char>, pat: Seq<char>, rep: Seq<char>)
    requires
        forall|i: int| 0 <= i < x.len() ==> !occurs_at(x + t, pat, i),
    ensures
        replace_all(x + t, pat, rep) == x + replace_all(t, pat, rep),
    decreases x.len(),
{
    if x.len() > 0 {
        let xt = x + t;
        let x1 = x.drop_first();
        assert(!occurs_at(xt, pat, 0));
        if pat.len() > 0 && pat.len() <= xt.len() {
            assert(xt.subrange(0, pat.len() as int) =~= xt.take(pat.len() as int));
        }
        assert(xt.drop_first() =~= x1 + t);
        assert forall|i: int| 0 <= i < x1.len() implies !occurs_at(x1 + t, pat, i) by {
            assert(!occurs_at(xt, pat, i + 1));
            if 0 <= i && i + pat.len() <= (x1 + t).len() {
                assert((x1 + t).subrange(i, i + pat.len()) =~= xt.subrange(i + 1, i + 1 + pat.len()));
            }
        }
        lemma_replace_all_prefix_kept(x1, t, pat, rep);
        assert(xt[0] == x[0]);
        assert(x =~= seq![x[0]] + x1);
    } else {
        assert(x + t =~= t);
    }
}

} // verus!
