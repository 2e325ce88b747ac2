//! Step 2: phrase stutters (其實其實其實 -> 其實) and repeated filler words.
use vstd::prelude::*;

use crate::chars::{chars_of, is_cjk, is_cjk_char, matches_at, occurs_at, push_all, slice_of, string_of};

verus! {

/// Filler words whose repetition (two times or more) collapses to one.
pub const FILLER_WORDS: [(char, char); 15] = [
    ('其', '實'),
    ('然', '後'),
    ('就', '是'),
    ('那', '個'),
    ('這', '個'),
    ('反', '正'),
    ('所', '以'),
    ('可', '是'),
    ('但', '是'),
    ('不', '過'),
    ('而', '且'),
    ('對', '啊'),
    ('對', '對'),
    ('那', '就'),
    ('之', '類'),
];

pub open spec fn filler_word(k: int) -> Seq<char> {
    seq![FILLER_WORDS@[k].0, FILLER_WORDS@[k].1]
}

/// Number of back-to-back copies of `p` in `s` starting at `pos`.
pub open spec fn copies_count(s: Seq<char>, p: Seq<char>, pos: int) -> nat
    decreases s.len() - pos,
{
    if p.len() > 0 && occurs_at(s, p, pos) {
        1 + copies_count(s, p, pos + p.len())
    } else {
        0
    }
}

/// Position just after the back-to-back copies of `p` starting at `pos`.
pub open spec fn copies_end(s: Seq<char>, p: Seq<char>, pos: int) -> int
    decreases s.len() - pos,
{
    if p.len() > 0 && occurs_at(s, p, pos) {
        copies_end(s, p, pos + p.len())
    } else {
        pos
    }
}

pub proof fn lemma_copies_end_bounds(s: Seq<char>, p: Seq<char>, pos: int)
    requires
        p.len() > 0,
        0 <= pos <= s.len(),
    ensures
        pos <= copies_end(s, p, pos) <= s.len(),
        occurs_at(s, p, pos) ==> copies_end(s, p, pos) >= pos + p.len(),
    decreases s.len() - pos,
{
    if occurs_at(s, p, pos) {
        lemma_copies_end_bounds(s, p, pos + p.len());
    }
}

pub open spec fn all_cjk(s: Seq<char>) -> bool {
    forall|k: int| 0 <= k < s.len() ==> is_cjk(#[trigger] s[k])
}

/// An all-CJK phrase of `l` characters starts at `i`, has room for three
/// copies, and is repeated at least three times back to back.
pub open spec fn phrase_stutter(s: Seq<char>, i: int, l: int) -> bool {
    &&& 0 <= i
    &&& i + 3 * l <= s.len()
    &&& all_cjk(s.subrange(i, i + l))
    &&& copies_count(s, s.subrange(i, i + l), i) >= 3
}

/// From position `i` on: the first phrase length among 2, 3, 4 that
/// stutters at `i` keeps one copy of the phrase and skips the rest of its
/// copies; otherwise the character at `i` is kept.
pub open spec fn collapse_phrases_from(s: Seq<char>, i: int) -> Seq<char>
    decreases s.len() - i,
{
    if i < 0 || i >= s.len() {
        Seq::empty()
    } else if phrase_stutter(s, i, 2) {
        proof {
            lemma_copies_end_bounds(s, s.subrange(i, i + 2), i);
        }
        s.subrange(i, i + 2) + collapse_phrases_from(s, copies_end(s, s.subrange(i, i + 2), i))
    } else if phrase_stutter(s, i, 3) {
        proof {
            lemma_copies_end_bounds(s, s.subrange(i, i + 3), i);
        }
        s.subrange(i, i + 3) + collapse_phrases_from(s, copies_end(s, s.subrange(i, i + 3), i))
    } else if phrase_stutter(s, i, 4) {
        proof {
            lemma_copies_end_bounds(s, s.subrange(i, i + 4), i);
        }
        s.subrange(i, i + 4) + collapse_phrases_from(s, copies_end(s, s.subrange(i, i + 4), i))
    } else {
        seq![s[i]] + collapse_phrases_from(s, i + 1)
    }
}

/// From position `i` on: where `w` occurs twice or more back to back, one
/// copy is kept; every other character is kept.
pub open spec fn collapse_filler_from(s: Seq<char>, w: Seq<char>, i: int) -> Seq<char>
    decreases s.len() - i,
{
    if i < 0 || i >= s.len() {
        Seq::empty()
    } else if w.len() > 0 && occurs_at(s, w, i) && occurs_at(s, w, i + w.len()) {
        proof {
            lemma_copies_end_bounds(s, w, i);
        }
        w + collapse_filler_from(s, w, copies_end(s, w, i))
    } else {
        seq![s[i]] + collapse_filler_from(s, w, i + 1)
    }
}

/// The first `k` filler words applied in order.
pub open spec fn fillers_applied(s: Seq<char>, k: int) -> Seq<char>
    decreases k,
{
    if k <= 0 {
        s
    } else {
        collapse_filler_from(fillers_applied(s, k - 1), filler_word(k - 1), 0)
    }
}

pub open spec fn spec_collapse_phrase_repeats(s: Seq<char>) -> Seq<char> {
    fillers_applied(collapse_phrases_from(s, 0), 15)
}

/// The end of the back-to-back copies of `p` from `start`, and their number.
fn copies_run(v: &Vec<char>, p: &Vec<char>, start: usize) -> (r: (usize, usize))
    requires
        p.len() > 0,
        start <= v.len(),
    ensures
        r.0 == copies_end(v@, p@, start as int),
        r.1 == copies_count(v@, p@, start as int),
        start <= r.0 <= v.len(),
{
    let mut pos = start;
    let mut count: usize = 0;
    proof {
        lemma_copies_end_bounds(v@, p@, start as int);
    }
    while matches_at(v, p, pos)
        invariant
            p.len() > 0,
            start <= pos <= v.len(),
            count <= pos - start,
            copies_end(v@, p@, start as int) == copies_end(v@, p@, pos as int),
            copies_count(v@, p@, start as int) == count + copies_count(v@, p@, pos as int),
        decreases v.len() - pos,
    {
        pos += p.len();
        count += 1;
    }
    (pos, count)
}

/// `Some(end)` when a phrase of `l` characters stutters at `i`, with `end`
/// the position after its copies.
fn phrase_stutter_end(v: &Vec<char>, i: usize, l: usize) -> (r: Option<usize>)
    requires
        i <= v.len(),
        2 <= l <= 4,
    ensures
        r is Some <==> phrase_stutter(v@, i as int, l as int),
        r matches Some(e) ==> e == copies_end(v@, v@.subrange(i as int, i + l), i as int),
{
    if l > v.len() - i || 3 * l > v.len() - i {
        return None;
    }
    let mut k: usize = 0;
    while k < l
        invariant
            k <= l,
            i + 3 * l <= v.len(),
            forall|t: int| 0 <= t < k ==> is_cjk(#[trigger] v@[i + t]),
        decreases l - k,
    {
        if !is_cjk_char(v[i + k]) {
            assert(!is_cjk(v@.subrange(i as int, i + l)[k as int]));
            return None;
        }
        k += 1;
    }
    assert(all_cjk(v@.subrange(i as int, i + l))) by {
        assert forall|t: int| 0 <= t < l implies is_cjk(#[trigger] v@.subrange(i as int, i + l)[t]) by {
            assert(v@.subrange(i as int, i + l)[t] == v@[i + t]);
        }
    }
    let phrase = slice_of(v, i, i + l);
    let (end, count) = copies_run(v, &phrase, i);
    if count >= 3 {
        Some(end)
    } else {
        None
    }
}

/// The first phrase length among 2, 3, 4 that stutters at `i`, with the
/// position after its copies.
fn first_stutter(v: &Vec<char>, i: usize) -> (r: Option<(usize, usize)>)
    requires
        i < v.len(),
    ensures
        r is None ==> !phrase_stutter(v@, i as int, 2) && !phrase_stutter(v@, i as int, 3)
            && !phrase_stutter(v@, i as int, 4),
        r matches Some((l, e)) ==> {
            &&& 2 <= l <= 4
            &&& phrase_stutter(v@, i as int, l as int)
            &&& forall|m: int| 2 <= m < l ==> !phrase_stutter(v@, i as int, m)
            &&& e == copies_end(v@, v@.subrange(i as int, i + l), i as int)
        },
{
    match phrase_stutter_end(v, i, 2) {
        Some(e) => Some((2, e)),
        None => match phrase_stutter_end(v, i, 3) {
            Some(e) => Some((3, e)),
            None => match phrase_stutter_end(v, i, 4) {
                Some(e) => Some((4, e)),
                None => None,
            },
        },
    }
}

fn collapse_phrases(v: &Vec<char>) -> (r: Vec<char>)
    ensures
        r@ == collapse_phrases_from(v@, 0),
{
    let n = v.len();
    let mut out: Vec<char> = Vec::new();
    let mut i: usize = 0;
    while i < n
        invariant
            n == v.len(),
            i <= n,
            out@ + collapse_phrases_from(v@, i as int) == collapse_phrases_from(v@, 0),
        decreases n - i,
    {
        let ghost s = v@;
        match first_stutter(v, i) {
            Some((l, end)) => {
                let phrase = slice_of(v, i, i + l);
                proof {
                    lemma_copies_end_bounds(s, s.subrange(i as int, i + l), i as int);
                    assert(out@ + phrase@ + collapse_phrases_from(s, end as int)
                        == out@ + collapse_phrases_from(s, i as int));
                }
                push_all(&mut out, &phrase);
                i = end;
            },
            None => {
                out.push(v[i]);
                i += 1;
            },
        }
    }
    out
}

/// Collapses the occurrences of `w` repeated twice or more.
fn collapse_filler(v: &Vec<char>, w: &Vec<char>) -> (r: Vec<char>)
    requires
        w.len() == 2,
    ensures
        r@ == collapse_filler_from(v@, w@, 0),
{
    let n = v.len();
    let mut out: Vec<char> = Vec::new();
    let mut i: usize = 0;
    while i < n
        invariant
            n == v.len(),
            w.len() == 2,
            i <= n,
            out@ + collapse_filler_from(v@, w@, i as int) == collapse_filler_from(v@, w@, 0),
        decreases n - i,
    {
        if matches_at(v, w, i) && matches_at(v, w, i + 2) {
            let (end, _count) = copies_run(v, w, i);
            proof {
                lemma_copies_end_bounds(v@, w@, i as int);
            }
            push_all(&mut out, w);
            i = end;
        } else {
            out.push(v[i]);
            i += 1;
        }
    }
    out
}

/// Collapses stuttered phrases: a 2 to 4 character CJK phrase repeated three
/// or more times becomes one copy, then each filler word repeated twice or
/// more becomes one copy.
pub fn collapse_phrase_repeats(text: &str) -> (res: String)
    ensures
        res@ == spec_collapse_phrase_repeats(text@),
{
    let v = chars_of(text);
    let mut s = collapse_phrases(&v);
    let mut k: usize = 0;
    while k < 15
        invariant
            k <= 15,
            s@ == fillers_applied(collapse_phrases_from(v@, 0), k as int),
        decreases 15 - k,
    {
        let w = vec![FILLER_WORDS[k].0, FILLER_WORDS[k].1];
        s = collapse_filler(&s, &w);
        k += 1;
    }
    string_of(&s)
}

/// `k` back-to-back copies of the two-character phrase `ab`.
pub open spec fn phrase_repeated(a: char, b: char, k: int) -> Seq<char> {
    Seq::new(
        (2 * k) as nat,
        |i: int|
            if i % 2 == 0 {
                a
            } else {
                b
            },
    )
}

proof fn lemma_repeated_copies(a: char, b: char, k: int, m: int)
    requires
        0 <= m <= k,
    ensures
        copies_count(phrase_repeated(a, b, k), seq![a, b], 2 * m) == k - m,
        copies_end(phrase_repeated(a, b, k), seq![a, b], 2 * m) == 2 * k,
    decreases k - m,
{
    let s = phrase_repeated(a, b, k);
    if m < k {
        assert(s.subrange(2 * m, 2 * m + 2) =~= seq![a, b]);
        lemma_repeated_copies(a, b, k, m + 1);
    } else {
        assert(!occurs_at(s, seq![a, b], 2 * m));
    }
}

proof fn lemma_fillers_keep_pair(t: Seq<char>, k: int)
    requires
        t.len() == 2,
        0 <= k,
    ensures
        fillers_applied(t, k) == t,
    decreases k,
{
    if k > 0 {
        lemma_fillers_keep_pair(t, k - 1);
        let w = filler_word(k - 1);
        assert(!occurs_at(t, w, 2));
        assert(!occurs_at(t, w, 1 + w.len() as int));
        assert(collapse_filler_from(t, w, 2) == Seq::<char>::empty());
        assert(collapse_filler_from(t, w, 1) =~= seq![t[1]]);
        assert(collapse_filler_from(t, w, 0) =~= t);
    }
}

/// A two-character CJK phrase said three or more times in a row collapses
/// to one occurrence (其實其實其實 -> 其實).
pub proof fn law_phrase_stutter_collapses(a: char, b: char, k: int)
    requires
        is_cjk(a),
        is_cjk(b),
        k >= 3,
    ensures
        spec_collapse_phrase_repeats(phrase_repeated(a, b, k)) == seq![a, b],
{
    let s = phrase_repeated(a, b, k);
    let p = s.subrange(0, 2);
    assert(p =~= seq![a, b]);
    lemma_repeated_copies(a, b, k, 0);
    assert(all_cjk(p));
    assert(phrase_stutter(s, 0, 2));
    assert(collapse_phrases_from(s, 2 * k) == Seq::<char>::empty());
    assert(collapse_phrases_from(s, 0) =~= seq![a, b]);
    lemma_fillers_keep_pair(seq![a, b], 15);
}


/// The filler words, written out: 其實 然後 就是 那個 這個 反正 所以 可是 但是
/// 不過 而且 對啊 對對 那就 之類.
pub open spec fn listed_fillers() -> Seq<Seq<char>> {
    seq![
        seq!['其', '實'], seq!['然', '後'], seq!['就', '是'], seq!['那', '個'], seq!['這', '個'],
        seq!['反', '正'], seq!['所', '以'], seq!['可', '是'], seq!['但', '是'], seq!['不', '過'],
        seq!['而', '且'], seq!['對', '啊'], seq!['對', '對'], seq!['那', '就'], seq!['之', '類'],
    ]
}

proof fn lemma_filler_words()
    ensures
        forall|k: int| 0 <= k < 15 ==> #[trigger] filler_word(k) == listed_fillers()[k],
{
    assert forall|k: int| 0 <= k < 15 implies #[trigger] filler_word(k) == listed_fillers()[k] by {
        assert(FILLER_WORDS@[k] == FILLER_WORDS[k]);
        assert(filler_word(k) =~= listed_fillers()[k]);
    }
}

/// A text too short to hold any phrase three times has no phrase stutter.
proof fn lemma_phrases_short_unchanged(s: Seq<char>, i: int)
    requires
        s.len() < 6,
        0 <= i <= s.len(),
    ensures
        collapse_phrases_from(s, i) == s.skip(i),
    decreases s.len() - i,
{
    if i < s.len() {
        lemma_phrases_short_unchanged(s, i + 1);
        assert(s.skip(i) =~= seq![s[i]] + s.skip(i + 1));
    } else {
        assert(s.skip(i) =~= Seq::<char>::empty());
    }
}

/// Where `w` is never found twice in a row from `i` on, the pass for `w`
/// keeps the text from `i` on.
proof fn lemma_filler_pass_unchanged(s: Seq<char>, w: Seq<char>, i: int)
    requires
        0 <= i <= s.len(),
        forall|j: int| i <= j < s.len() ==> !(#[trigger] occurs_at(s, w, j) && occurs_at(s, w, j + w.len())),
    ensures
        collapse_filler_from(s, w, i) == s.skip(i),
    decreases s.len() - i,
{
    if i < s.len() {
        lemma_filler_pass_unchanged(s, w, i + 1);
        assert(s.skip(i) =~= seq![s[i]] + s.skip(i + 1));
    } else {
        assert(s.skip(i) =~= Seq::<char>::empty());
    }
}

proof fn lemma_fillers_on_doubled(a: char, b: char, kw: int, k: int)
    requires
        0 <= kw < 15,
        0 <= k <= 15,
        filler_word(kw) == seq![a, b],
        forall|j: int| 0 <= j < 15 && j != kw ==> #[trigger] filler_word(j) != seq![a, b],
    ensures
        k <= kw ==> fillers_applied(phrase_repeated(a, b, 2), k) == phrase_repeated(a, b, 2),
        k > kw ==> fillers_applied(phrase_repeated(a, b, 2), k) == seq![a, b],
    decreases k,
{
    let ww = phrase_repeated(a, b, 2);
    if k > 0 {
        lemma_fillers_on_doubled(a, b, kw, k - 1);
        let x = filler_word(k - 1);
        if k - 1 < kw {
            assert forall|j: int| 0 <= j < ww.len() implies !(#[trigger] occurs_at(ww, x, j) && occurs_at(
                ww,
                x,
                j + x.len(),
            )) by {
                if j == 0 && occurs_at(ww, x, 0) && occurs_at(ww, x, 2) {
                    assert(x =~= ww.subrange(0, 2));
                    assert(x =~= seq![a, b]);
                }
            }
            lemma_filler_pass_unchanged(ww, x, 0);
            assert(ww.skip(0) =~= ww);
        } else if k - 1 == kw {
            lemma_repeated_copies(a, b, 2, 0);
            assert(ww.subrange(0, 2) =~= seq![a, b]);
            assert(ww.subrange(2, 4) =~= seq![a, b]);
            assert(collapse_filler_from(ww, x, 4) == Seq::<char>::empty());
            assert(collapse_filler_from(ww, x, 0) =~= seq![a, b]);
        } else {
            let t = seq![a, b];
            assert(!occurs_at(t, x, 2));
            assert(!occurs_at(t, x, 1 + x.len() as int));
            assert(collapse_filler_from(t, x, 2) == Seq::<char>::empty());
            assert(collapse_filler_from(t, x, 1) =~= seq![t[1]]);
            assert(collapse_filler_from(t, x, 0) =~= t);
        }
    }
}

/// Every filler word said two or more times in a row collapses to one
/// occurrence (其實其實 -> 其實, 然後然後然後 -> 然後).
pub proof fn law_filler_repeats_collapse(a: char, b: char, k: int)
    requires
        listed_fillers().contains(seq![a, b]),
        k >= 2,
    ensures
        spec_collapse_phrase_repeats(phrase_repeated(a, b, k)) == seq![a, b],
{
    lemma_filler_words();
    let fs = listed_fillers();
    let kw = choose|i: int| 0 <= i < fs.len() && fs[i] == seq![a, b];
    assert(seq![a, b][0] == a && seq![a, b][1] == b);
    assert(is_cjk(a) && is_cjk(b)) by {
        assert(fs[kw] == seq![a, b]);
        assert(fs[kw][0] == a && fs[kw][1] == b);
    }
    if k >= 3 {
        law_phrase_stutter_collapses(a, b, k);
    } else {
        let ww = phrase_repeated(a, b, 2);
        lemma_phrases_short_unchanged(ww, 0);
        assert(ww.skip(0) =~= ww);
        assert(filler_word(kw) == seq![a, b]);
        assert forall|j: int| 0 <= j < 15 && j != kw implies #[trigger] filler_word(j) != seq![
            a,
            b,
        ] by {
            if filler_word(j) == seq![a, b] {
                assert(fs[j] == fs[kw]);
                assert(fs[j][0] == fs[kw][0] && fs[j][1] == fs[kw][1]);
            }
        }
        lemma_fillers_on_doubled(a, b, kw, 15);
    }
}
} // verus!
