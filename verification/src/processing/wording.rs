//! Steps 3 and 4: interjection normalisation and the 樂色/勒色 -> 垃圾 fix.
use vstd::prelude::*;

use crate::chars::{
    chars_of, lemma_replace_all_no_new_char, lemma_replace_char_gone, replace_all, replace_all_vec,
    string_of,
};

verus! {

/// 哎 and 誒 become 欸, then every 呃 is dropped.
pub open spec fn spec_normalize_interjections(s: Seq<char>) -> Seq<char> {
    replace_all(
        replace_all(replace_all(s, seq!['哎'], seq!['欸']), seq!['誒'], seq!['欸']),
        seq!['呃'],
        Seq::empty(),
    )
}

/// Normalises interjections: 哎 and 誒 become 欸, 呃 is removed.
pub fn normalize_interjections(text: &str) -> (res: String)
    ensures
        res@ == spec_normalize_interjections(text@),
{
    let v = chars_of(text);
    let ai = vec!['哎'];
    let ei = vec!['誒'];
    let e = vec!['呃'];
    let eh = vec!['欸'];
    let none: Vec<char> = Vec::new();
    assert(ai@ == seq!['哎'] && ei@ == seq!['誒'] && e@ == seq!['呃'] && eh@ == seq!['欸']);
    let s = replace_all_vec(&v, &ai, &eh);
    let s = replace_all_vec(&s, &ei, &eh);
    let s = replace_all_vec(&s, &e, &none);
    string_of(&s)
}

/// Characters after which 樂色 / 乐色 is a real word (音樂色彩, 可樂色素, ...).
pub const LE_GUARDS: [char; 16] = [
    '音', '娛', '娱', '快', '可', '歡', '欢', '享', '玩', '行', '作', '康', '安', '喜', '逸', '苦',
];

/// A Taiwanese-accent spelling of 垃圾 starts at `i`: 樂色 or 乐色 not preceded
/// by a guard character, or 勒色 not preceded by 勾.
pub open spec fn garbage_at(s: Seq<char>, i: int) -> bool {
    &&& 0 <= i
    &&& i + 1 < s.len()
    &&& s[i + 1] == '色'
    &&& {
        ||| (s[i] == '樂' || s[i] == '乐') && !(i > 0 && LE_GUARDS@.contains(s[i - 1]))
        ||| s[i] == '勒' && !(i > 0 && s[i - 1] == '勾')
    }
}

/// Scanning from `i`: each spelling found becomes 垃圾 and is skipped.
pub open spec fn fix_from(s: Seq<char>, i: int) -> Seq<char>
    decreases s.len() - i,
{
    if i < 0 || i >= s.len() {
        Seq::empty()
    } else if garbage_at(s, i) {
        seq!['垃', '圾'] + fix_from(s, i + 2)
    } else {
        seq![s[i]] + fix_from(s, i + 1)
    }
}

pub open spec fn spec_fix_tw_pronunciation(s: Seq<char>) -> Seq<char> {
    fix_from(s, 0)
}

fn is_le_guard(c: char) -> (b: bool)
    ensures
        b == LE_GUARDS@.contains(c),
{
    let mut i: usize = 0;
    while i < 16
        invariant
            i <= 16,
            forall|j: int| 0 <= j < i ==> LE_GUARDS@[j] != c,
        decreases 16 - i,
    {
        if LE_GUARDS[i] == c {
            return true;
        }
        i += 1;
    }
    false
}

/// Rewrites 樂色 / 乐色 / 勒色 (the Taiwanese pronunciation of 垃圾) to 垃圾,
/// except in words such as 音樂色彩 or 勾勒色彩.
pub fn fix_tw_pronunciation(text: &str) -> (res: String)
    ensures
        res@ == spec_fix_tw_pronunciation(text@),
{
    let v = chars_of(text);
    let n = v.len();
    let mut out: Vec<char> = Vec::new();
    let mut i: usize = 0;
    while i < n
        invariant
            n == v.len(),
            i <= n,
            out@ + fix_from(v@, i as int) == fix_from(v@, 0),
        decreases n - i,
    {
        if n - i >= 2 && v[i + 1] == '色' {
            let cur = v[i];
            if cur == '樂' || cur == '乐' {
                let guarded = i > 0 && is_le_guard(v[i - 1]);
                if !guarded {
                    out.push('垃');
                    out.push('圾');
                    i += 2;
                    continue;
                }
            } else if cur == '勒' {
                if !(i > 0 && v[i - 1] == '勾') {
                    out.push('垃');
                    out.push('圾');
                    i += 2;
                    continue;
                }
            }
        }
        out.push(v[i]);
        i += 1;
    }
    string_of(&out)
}

/// After normalisation no 哎, 誒 or 呃 is left.
pub proof fn law_interjections_normalized(s: Seq<char>)
    ensures
        !spec_normalize_interjections(s).contains('哎'),
        !spec_normalize_interjections(s).contains('誒'),
        !spec_normalize_interjections(s).contains('呃'),
{
    let eh = seq!['欸'];
    let none = Seq::<char>::empty();
    let s1 = replace_all(s, seq!['哎'], eh);
    let s2 = replace_all(s1, seq!['誒'], eh);
    assert(!eh.contains('哎')) by {
        assert(eh[0] != '哎');
    }
    assert(!eh.contains('誒')) by {
        assert(eh[0] != '誒');
    }
    assert(!eh.contains('呃')) by {
        assert(eh[0] != '呃');
    }
    lemma_replace_char_gone(s, '哎', eh);
    lemma_replace_all_no_new_char(s1, seq!['誒'], eh, '哎');
    lemma_replace_char_gone(s1, '誒', eh);
    lemma_replace_all_no_new_char(s2, seq!['呃'], none, '哎');
    lemma_replace_all_no_new_char(s2, seq!['呃'], none, '誒');
    lemma_replace_char_gone(s2, '呃', none);
}

proof fn lemma_fix_from_unchanged(s: Seq<char>, i: int)
    requires
        0 <= i <= s.len(),
        forall|j: int| 0 <= j < s.len() ==> !garbage_at(s, j),
    ensures
        fix_from(s, i) == s.skip(i),
    decreases s.len() - i,
{
    if i < s.len() {
        lemma_fix_from_unchanged(s, i + 1);
        assert(!garbage_at(s, i));
        assert(s.skip(i) =~= seq![s[i]] + s.skip(i + 1));
    } else {
        assert(s.skip(i) =~= Seq::<char>::empty());
    }
}

/// Text in which every 樂色 / 乐色 follows a guard character (音樂色彩,
/// 可樂色素, ...) and every 勒色 follows 勾 comes back as it is.
pub proof fn law_guarded_words_unchanged(s: Seq<char>)
    requires
        forall|j: int| 0 <= j < s.len() ==> !garbage_at(s, j),
    ensures
        spec_fix_tw_pronunciation(s) == s,
{
    lemma_fix_from_unchanged(s, 0);
    assert(s.skip(0) =~= s);
}

/// Each spelling found is replaced by the two characters 垃圾, so the scan
/// keeps the length, and a character that neither starts a spelling nor
/// follows the start of one stays where it was.
proof fn lemma_fix_from_positions(s: Seq<char>, p: int)
    requires
        0 <= p <= s.len(),
    ensures
        fix_from(s, p).len() == s.len() - p,
        forall|q: int|
            p <= q < s.len() && !garbage_at(s, q) && !garbage_at(s, q - 1) ==> #[trigger] fix_from(
                s,
                p,
            )[q - p] == s[q],
    decreases s.len() - p,
{
    if p < s.len() {
        if garbage_at(s, p) {
            lemma_fix_from_positions(s, p + 2);
            let r = fix_from(s, p);
            assert forall|q: int|
                p <= q < s.len() && !garbage_at(s, q) && !garbage_at(s, q - 1) implies #[trigger] r[q
                - p] == s[q] by {
                assert(q >= p + 2);
                assert(r[q - p] == fix_from(s, p + 2)[q - (p + 2)]);
            }
        } else {
            lemma_fix_from_positions(s, p + 1);
            let r = fix_from(s, p);
            assert forall|q: int|
                p <= q < s.len() && !garbage_at(s, q) && !garbage_at(s, q - 1) implies #[trigger] r[q
                - p] == s[q] by {
                if q > p {
                    assert(r[q - p] == fix_from(s, p + 1)[q - (p + 1)]);
                }
            }
        }
    }
}

/// The fix keeps the length of the text, and 樂色 or 乐色 right after any of
/// 音 娛 娱 快 可 歡 欢 享 玩 行 作 康 安 喜 逸 苦 (音樂色彩, 歡樂色彩, 可樂色素) is
/// left exactly where and as it was.
pub proof fn law_guarded_le_se_kept(s: Seq<char>, i: int)
    requires
        0 < i,
        i + 1 < s.len(),
        s[i] == '樂' || s[i] == '乐',
        s[i + 1] == '色',
        ({
            let g = s[i - 1];
            g == '音' || g == '娛' || g == '娱' || g == '快' || g == '可' || g == '歡' || g == '欢'
                || g == '享' || g == '玩' || g == '行' || g == '作' || g == '康' || g == '安'
                || g == '喜' || g == '逸' || g == '苦'
        }),
    ensures
        spec_fix_tw_pronunciation(s).len() == s.len(),
        spec_fix_tw_pronunciation(s)[i] == s[i],
        spec_fix_tw_pronunciation(s)[i + 1] == s[i + 1],
{
    let g = s[i - 1];
    assert(LE_GUARDS@.contains(g)) by {
        let k: int = if g == '音' {
            0
        } else if g == '娛' {
            1
        } else if g == '娱' {
            2
        } else if g == '快' {
            3
        } else if g == '可' {
            4
        } else if g == '歡' {
            5
        } else if g == '欢' {
            6
        } else if g == '享' {
            7
        } else if g == '玩' {
            8
        } else if g == '行' {
            9
        } else if g == '作' {
            10
        } else if g == '康' {
            11
        } else if g == '安' {
            12
        } else if g == '喜' {
            13
        } else if g == '逸' {
            14
        } else {
            15
        };
        assert(LE_GUARDS@[k] == LE_GUARDS[k]);
        assert(LE_GUARDS@[k] == g);
    }
    lemma_fix_from_positions(s, 0);
    assert(!garbage_at(s, i));
    assert(!garbage_at(s, i - 1));
    assert(!garbage_at(s, i + 1));
    assert(fix_from(s, 0)[i - 0] == s[i]);
    assert(fix_from(s, 0)[i + 1 - 0] == s[i + 1]);
}

/// The fix brings in no character but 垃 and 圾.
pub proof fn law_fix_no_new_char(s: Seq<char>, c: char)
    requires
        !s.contains(c),
        c != '垃',
        c != '圾',
    ensures
        !spec_fix_tw_pronunciation(s).contains(c),
{
    lemma_fix_from_positions(s, 0);
    let r = fix_from(s, 0);
    lemma_fix_from_chars(s, 0);
    if r.contains(c) {
        let j = choose|j: int| 0 <= j < r.len() && r[j] == c;
        assert(r[j] == c);
    }
}

proof fn lemma_fix_from_chars(s: Seq<char>, p: int)
    requires
        0 <= p <= s.len(),
    ensures
        forall|j: int|
            0 <= j < fix_from(s, p).len() ==> {
                let x = #[trigger] fix_from(s, p)[j];
                x == '垃' || x == '圾' || x == s[p + j]
            },
    decreases s.len() - p,
{
    lemma_fix_from_positions(s, p);
    if p < s.len() {
        if garbage_at(s, p) {
            lemma_fix_from_chars(s, p + 2);
            lemma_fix_from_positions(s, p + 2);
            let r = fix_from(s, p);
            assert forall|j: int| 0 <= j < r.len() implies {
                let x = #[trigger] r[j];
                x == '垃' || x == '圾' || x == s[p + j]
            } by {
                if j >= 2 {
                    assert(r[j] == fix_from(s, p + 2)[j - 2]);
                }
            }
        } else {
            lemma_fix_from_chars(s, p + 1);
            lemma_fix_from_positions(s, p + 1);
            let r = fix_from(s, p);
            assert forall|j: int| 0 <= j < r.len() implies {
                let x = #[trigger] r[j];
                x == '垃' || x == '圾' || x == s[p + j]
            } by {
                if j >= 1 {
                    assert(r[j] == fix_from(s, p + 1)[j - 1]);
                }
            }
        }
    }
}

/// How many times `c` occurs in `s`.
pub open spec fn count_char(s: Seq<char>, c: char) -> nat
    decreases s.len(),
{
    if s.len() == 0 {
        0
    } else {
        (if s[0] == c {
            1nat
        } else {
            0nat
        }) + count_char(s.drop_first(), c)
    }
}

proof fn lemma_replace_char_step(s: Seq<char>, x: char, rep: Seq<char>)
    requires
        s.len() > 0,
    ensures
        replace_all(s, seq![x], rep) == (if s[0] == x {
            rep
        } else {
            seq![s[0]]
        }) + replace_all(s.drop_first(), seq![x], rep),
{
    if s[0] == x {
        assert(s.take(1) =~= seq![x]);
        assert(s.skip(1) =~= s.drop_first());
    } else {
        assert(s.take(1)[0] != seq![x][0]);
    }
}

proof fn lemma_replace_char_len_count(s: Seq<char>, x: char, y: char, c: char)
    ensures
        replace_all(s, seq![x], seq![y]).len() == s.len(),
        c != x && c != y ==> count_char(replace_all(s, seq![x], seq![y]), c) == count_char(s, c),
    decreases s.len(),
{
    if s.len() > 0 {
        lemma_replace_char_step(s, x, seq![y]);
        lemma_replace_char_len_count(s.drop_first(), x, y, c);
        let head = if s[0] == x {
            seq![y]
        } else {
            seq![s[0]]
        };
        let r = head + replace_all(s.drop_first(), seq![x], seq![y]);
        assert(r.drop_first() =~= replace_all(s.drop_first(), seq![x], seq![y]));
    }
}

proof fn lemma_remove_char_len(s: Seq<char>, x: char)
    ensures
        replace_all(s, seq![x], Seq::empty()).len() + count_char(s, x) == s.len(),
    decreases s.len(),
{
    if s.len() > 0 {
        lemma_replace_char_step(s, x, Seq::empty());
        lemma_remove_char_len(s.drop_first(), x);
        if s[0] == x {
            assert(Seq::<char>::empty() + replace_all(s.drop_first(), seq![x], Seq::empty())
                =~= replace_all(s.drop_first(), seq![x], Seq::empty()));
        }
    }
}

proof fn lemma_replace_absent_char(s: Seq<char>, x: char, rep: Seq<char>)
    requires
        !s.contains(x),
    ensures
        replace_all(s, seq![x], rep) == s,
    decreases s.len(),
{
    if s.len() > 0 {
        lemma_replace_char_step(s, x, rep);
        assert(s[0] != x);
        assert forall|i: int| 0 <= i < s.drop_first().len() implies s.drop_first()[i] != x by {
            assert(s.drop_first()[i] == s[i + 1]);
        }
        lemma_replace_absent_char(s.drop_first(), x, rep);
        assert(seq![s[0]] + s.drop_first() =~= s);
    }
}

/// Normalisation removes exactly the 呃 and keeps every other character's
/// place: the text gets shorter by its number of 呃.
pub proof fn law_interjections_count(s: Seq<char>)
    ensures
        spec_normalize_interjections(s).len() == s.len() - count_char(s, '呃'),
{
    let s1 = replace_all(s, seq!['哎'], seq!['欸']);
    let s2 = replace_all(s1, seq!['誒'], seq!['欸']);
    lemma_replace_char_len_count(s, '哎', '欸', '呃');
    lemma_replace_char_len_count(s1, '誒', '欸', '呃');
    lemma_remove_char_len(s2, '呃');
}

/// Normalising twice is normalising once.
pub proof fn law_interjections_idempotent(s: Seq<char>)
    ensures
        spec_normalize_interjections(spec_normalize_interjections(s)) == spec_normalize_interjections(s),
{
    let r = spec_normalize_interjections(s);
    law_interjections_normalized(s);
    lemma_replace_absent_char(r, '哎', seq!['欸']);
    lemma_replace_absent_char(r, '誒', seq!['欸']);
    lemma_replace_absent_char(r, '呃', Seq::empty());
}

} // verus!
