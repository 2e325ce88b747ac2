//! Step 5: sentence-final punctuation rules.
use vstd::prelude::*;

use crate::chars::{chars_of, matches_at, string_of};

verus! {

/// Sentence-final particles.
pub open spec fn is_particle(c: char) -> bool {
    c == '吗' || c == '嗎' || c == '呢' || c == '啊' || c == '呀' || c == '啦' || c == '哇'
        || c == '喔' || c == '哦' || c == '噢' || c == '耶' || c == '欸'
}

/// The mark a particle calls for: a question mark after 吗, 嗎 and 呢, an
/// exclamation mark after the others.
pub open spec fn particle_mark(c: char) -> char {
    if c == '吗' || c == '嗎' || c == '呢' {
        '？'
    } else {
        '！'
    }
}

pub open spec fn is_end_mark(c: char) -> bool {
    c == '。' || c == '！' || c == '？'
}

pub open spec fn is_clause_mark(c: char) -> bool {
    c == '。' || c == '，' || c == '！' || c == '？'
}

pub open spec fn is_pause_mark(c: char) -> bool {
    c == '。' || c == '！' || c == '？' || c == '，' || c == '、'
}

/// Characters after which a final 好 is read as the particle 吼.
pub open spec fn is_hao_trigger(c: char) -> bool {
    c == '了' || c == '啊' || c == '嘛' || c == '耶' || c == '喔' || c == '欸' || c == '吧'
        || c == '呢' || c == '哦' || c == '對'
}

/// A particle followed by 。！？ gets the mark the particle calls for.
pub open spec fn particle_marks(s: Seq<char>) -> Seq<char> {
    Seq::new(
        s.len(),
        |j: int|
            if j > 0 && is_particle(s[j - 1]) && is_end_mark(s[j]) {
                particle_mark(s[j - 1])
            } else {
                s[j]
            },
    )
}

/// A particle that ends the text gets its mark appended.
pub open spec fn final_particle_mark(s: Seq<char>) -> Seq<char> {
    if s.len() > 0 && is_particle(s.last()) {
        s.push(particle_mark(s.last()))
    } else {
        s
    }
}

/// The phrase rules, in the order they apply: the mark and the phrase.
pub open spec fn punct_rule(k: usize) -> (char, Seq<char>) {
    match k {
        0 => ('？', seq!['什', '么', '啊']),
        1 => ('？', seq!['怎', '么', '啊']),
        2 => ('？', seq!['为', '什', '么', '啊']),
        3 => ('？', seq!['可', '以', '吗']),
        4 => ('？', seq!['好', '吗']),
        5 => ('？', seq!['是', '不', '是']),
        6 => ('？', seq!['对', '不', '对']),
        7 => ('？', seq!['行', '不', '行']),
        8 => ('？', seq!['好', '不', '好']),
        9 => ('？', seq!['要', '不', '要']),
        10 => ('？', seq!['有', '没', '有']),
        11 => ('？', seq!['是', '吗']),
        12 => ('？', seq!['对', '吗']),
        13 => ('？', seq!['能', '不', '能']),
        14 => ('！', seq!['怎', '样', '啦']),
        15 => ('！', seq!['这', '样', '啦']),
        16 => ('！', seq!['干', '嘛', '啦']),
        17 => ('！', seq!['什', '么', '啦']),
        18 => ('！', seq!['这', '样', '啊']),
        19 => ('！', seq!['欸', '呀', '呀']),
        20 => ('！', seq!['太', '棒', '了']),
        21 => ('！', seq!['好', '厉', '害']),
        22 => ('！', seq!['真', '的', '假', '的']),
        23 => ('！', seq!['不', '会', '吧']),
        24 => ('！', seq!['天', '啊']),
        25 => ('！', seq!['我', '的', '天']),
        _ => ('！', seq!['我', '的', '天']),
    }
}

pub const PUNCT_RULE_COUNT: usize = 26;

/// `phrase` followed by 。，！？ gets `mark` in place of that punctuation.
pub open spec fn phrase_marks(s: Seq<char>, mark: char, phrase: Seq<char>) -> Seq<char> {
    Seq::new(
        s.len(),
        |j: int|
            if j >= phrase.len() && s.subrange(j - phrase.len(), j) == phrase && is_clause_mark(s[j]) {
                mark
            } else {
                s[j]
            },
    )
}

pub open spec fn ends_with(s: Seq<char>, p: Seq<char>) -> bool {
    p.len() <= s.len() && s.subrange(s.len() - p.len(), s.len() as int) == p
}

/// A text that ends with `phrase` gets `mark` appended.
pub open spec fn final_phrase_mark(s: Seq<char>, mark: char, phrase: Seq<char>) -> Seq<char> {
    if ends_with(s, phrase) {
        s.push(mark)
    } else {
        s
    }
}

/// The first `k` phrase rules applied in order.
pub open spec fn phrase_rules_applied(s: Seq<char>, k: int) -> Seq<char>
    decreases k,
{
    if k <= 0 {
        s
    } else {
        let t = phrase_rules_applied(s, k - 1);
        let (mark, phrase) = punct_rule((k - 1) as usize);
        final_phrase_mark(phrase_marks(t, mark, phrase), mark, phrase)
    }
}

/// A single 哈 (not after another 哈) before a pause or the end becomes 吼.
pub open spec fn ha_to_hou(s: Seq<char>) -> Seq<char> {
    Seq::new(
        s.len(),
        |j: int|
            if s[j] == '哈' && !(j > 0 && s[j - 1] == '哈') && (j + 1 == s.len() || is_pause_mark(
                s[j + 1],
            )) {
                '吼'
            } else {
                s[j]
            },
    )
}

/// 好 after a trigger character and before a pause or the end becomes 吼.
pub open spec fn hao_to_hou(s: Seq<char>) -> Seq<char> {
    Seq::new(
        s.len(),
        |j: int|
            if s[j] == '好' && j > 0 && is_hao_trigger(s[j - 1]) && (j + 1 == s.len()
                || is_pause_mark(s[j + 1])) {
                '吼'
            } else {
                s[j]
            },
    )
}

pub open spec fn spec_apply_punct_rules(s: Seq<char>) -> Seq<char> {
    if s.len() == 0 {
        s
    } else {
        hao_to_hou(
            ha_to_hou(
                phrase_rules_applied(final_particle_mark(particle_marks(s)), PUNCT_RULE_COUNT as int),
            ),
        )
    }
}

fn is_particle_char(c: char) -> (b: bool)
    ensures
        b == is_particle(c),
{
    c == '吗' || c == '嗎' || c == '呢' || c == '啊' || c == '呀' || c == '啦' || c == '哇'
        || c == '喔' || c == '哦' || c == '噢' || c == '耶' || c == '欸'
}

fn particle_mark_of(c: char) -> (m: char)
    ensures
        m == particle_mark(c),
{
    if c == '吗' || c == '嗎' || c == '呢' {
        '？'
    } else {
        '！'
    }
}

fn is_end_mark_char(c: char) -> (b: bool)
    ensures
        b == is_end_mark(c),
{
    c == '。' || c == '！' || c == '？'
}

fn is_clause_mark_char(c: char) -> (b: bool)
    ensures
        b == is_clause_mark(c),
{
    c == '。' || c == '，' || c == '！' || c == '？'
}

fn is_pause_mark_char(c: char) -> (b: bool)
    ensures
        b == is_pause_mark(c),
{
    c == '。' || c == '！' || c == '？' || c == '，' || c == '、'
}

fn is_hao_trigger_char(c: char) -> (b: bool)
    ensures
        b == is_hao_trigger(c),
{
    c == '了' || c == '啊' || c == '嘛' || c == '耶' || c == '喔' || c == '欸' || c == '吧'
        || c == '呢' || c == '哦' || c == '對'
}

fn punct_rule_of(k: usize) -> (r: (char, Vec<char>))
    requires
        k < PUNCT_RULE_COUNT,
    ensures
        r.0 == punct_rule(k).0,
        r.1@ == punct_rule(k).1,
{
    match k {
        0 => ('？', vec!['什', '么', '啊']),
        1 => ('？', vec!['怎', '么', '啊']),
        2 => ('？', vec!['为', '什', '么', '啊']),
        3 => ('？', vec!['可', '以', '吗']),
        4 => ('？', vec!['好', '吗']),
        5 => ('？', vec!['是', '不', '是']),
        6 => ('？', vec!['对', '不', '对']),
        7 => ('？', vec!['行', '不', '行']),
        8 => ('？', vec!['好', '不', '好']),
        9 => ('？', vec!['要', '不', '要']),
        10 => ('？', vec!['有', '没', '有']),
        11 => ('？', vec!['是', '吗']),
        12 => ('？', vec!['对', '吗']),
        13 => ('？', vec!['能', '不', '能']),
        14 => ('！', vec!['怎', '样', '啦']),
        15 => ('！', vec!['这', '样', '啦']),
        16 => ('！', vec!['干', '嘛', '啦']),
        17 => ('！', vec!['什', '么', '啦']),
        18 => ('！', vec!['这', '样', '啊']),
        19 => ('！', vec!['欸', '呀', '呀']),
        20 => ('！', vec!['太', '棒', '了']),
        21 => ('！', vec!['好', '厉', '害']),
        22 => ('！', vec!['真', '的', '假', '的']),
        23 => ('！', vec!['不', '会', '吧']),
        24 => ('！', vec!['天', '啊']),
        25 => ('！', vec!['我', '的', '天']),
        _ => ('！', vec!['我', '的', '天']),
    }
}

fn apply_particle_marks(v: &Vec<char>) -> (r: Vec<char>)
    ensures
        r@ == particle_marks(v@),
{
    let mut out: Vec<char> = Vec::new();
    let mut j: usize = 0;
    while j < v.len()
        invariant
            j <= v.len(),
            out@ == particle_marks(v@).take(j as int),
        decreases v.len() - j,
    {
        if j > 0 && is_particle_char(v[j - 1]) && is_end_mark_char(v[j]) {
            out.push(particle_mark_of(v[j - 1]));
        } else {
            out.push(v[j]);
        }
        j += 1;
        assert(out@ =~= particle_marks(v@).take(j as int));
    }
    assert(out@ =~= particle_marks(v@));
    out
}

fn apply_phrase_marks(v: &Vec<char>, mark: char, phrase: &Vec<char>) -> (r: Vec<char>)
    ensures
        r@ == phrase_marks(v@, mark, phrase@),
{
    let mut out: Vec<char> = Vec::new();
    let mut j: usize = 0;
    while j < v.len()
        invariant
            j <= v.len(),
            out@ == phrase_marks(v@, mark, phrase@).take(j as int),
        decreases v.len() - j,
    {
        if j >= phrase.len() && matches_at(v, phrase, j - phrase.len()) && is_clause_mark_char(
            v[j],
        ) {
            out.push(mark);
        } else {
            out.push(v[j]);
        }
        j += 1;
        assert(out@ =~= phrase_marks(v@, mark, phrase@).take(j as int));
    }
    assert(out@ =~= phrase_marks(v@, mark, phrase@));
    out
}

fn apply_ha_to_hou(v: &Vec<char>) -> (r: Vec<char>)
    ensures
        r@ == ha_to_hou(v@),
{
    let n = v.len();
    let mut out: Vec<char> = Vec::new();
    let mut j: usize = 0;
    while j < n
        invariant
            n == v.len(),
            j <= n,
            out@ == ha_to_hou(v@).take(j as int),
        decreases n - j,
    {
        if v[j] == '哈' && !(j > 0 && v[j - 1] == '哈') && (j + 1 == n || is_pause_mark_char(
            v[j + 1],
        )) {
            out.push('吼');
        } else {
            out.push(v[j]);
        }
        j += 1;
        assert(out@ =~= ha_to_hou(v@).take(j as int));
    }
    assert(out@ =~= ha_to_hou(v@));
    out
}

fn apply_hao_to_hou(v: &Vec<char>) -> (r: Vec<char>)
    ensures
        r@ == hao_to_hou(v@),
{
    let n = v.len();
    let mut out: Vec<char> = Vec::new();
    let mut j: usize = 0;
    while j < n
        invariant
            n == v.len(),
            j <= n,
            out@ == hao_to_hou(v@).take(j as int),
        decreases n - j,
    {
        if v[j] == '好' && j > 0 && is_hao_trigger_char(v[j - 1]) && (j + 1 == n
            || is_pause_mark_char(v[j + 1])) {
            out.push('吼');
        } else {
            out.push(v[j]);
        }
        j += 1;
        assert(out@ =~= hao_to_hou(v@).take(j as int));
    }
    assert(out@ =~= hao_to_hou(v@));
    out
}

/// Adds or fixes sentence-final punctuation: a final particle gets ？ or ！,
/// known phrases such as 真的假的 get their mark, a lone final 哈 becomes 吼
/// and 好 after a particle becomes 吼.
pub fn apply_punct_rules(text: &str) -> (res: String)
    ensures
        res@ == spec_apply_punct_rules(text@),
{
    let v = chars_of(text);
    if v.len() == 0 {
        return String::new();
    }
    let mut s = apply_particle_marks(&v);
    let n = s.len();
    if n > 0 && is_particle_char(s[n - 1]) {
        let m = particle_mark_of(s[n - 1]);
        s.push(m);
    }
    assert(s@ == final_particle_mark(particle_marks(v@)));
    let ghost start = s@;
    let mut k: usize = 0;
    while k < PUNCT_RULE_COUNT
        invariant
            k <= PUNCT_RULE_COUNT,
            s@ == phrase_rules_applied(start, k as int),
        decreases PUNCT_RULE_COUNT - k,
    {
        let (mark, phrase) = punct_rule_of(k);
        let mut t = apply_phrase_marks(&s, mark, &phrase);
        if phrase.len() <= t.len() && matches_at(&t, &phrase, t.len() - phrase.len()) {
            t.push(mark);
        }
        s = t;
        k += 1;
    }
    let s = apply_ha_to_hou(&s);
    let s = apply_hao_to_hou(&s);
    string_of(&s)
}


/// The question phrases, written out: 什么啊 怎么啊 为什么啊 可以吗 好吗 是不是
/// 对不对 行不行 好不好 要不要 有没有 是吗 对吗 能不能.
pub open spec fn question_phrases() -> Seq<Seq<char>> {
    seq![
        seq!['什', '么', '啊'], seq!['怎', '么', '啊'], seq!['为', '什', '么', '啊'],
        seq!['可', '以', '吗'], seq!['好', '吗'], seq!['是', '不', '是'], seq!['对', '不', '对'],
        seq!['行', '不', '行'], seq!['好', '不', '好'], seq!['要', '不', '要'],
        seq!['有', '没', '有'], seq!['是', '吗'], seq!['对', '吗'], seq!['能', '不', '能'],
    ]
}

/// The last characters of an exclamation phrase: none ends like a question
/// phrase.
pub open spec fn bang_ending(ph: Seq<char>) -> bool {
    let l = ph.last();
    &&& l == '啦' || l == '啊' || l == '呀' || l == '了' || l == '害' || l == '的' || l == '吧'
        || l == '天'
    &&& l == '啊' ==> (ph[ph.len() - 2] == '样' || ph[ph.len() - 2] == '天')
}

proof fn lemma_rule_facts(k: usize)
    requires
        k < PUNCT_RULE_COUNT,
    ensures
        punct_rule(k).0 == '？' || punct_rule(k).0 == '！',
        punct_rule(k).1.len() >= 2,
        !is_clause_mark(punct_rule(k).1.last()),
        punct_rule(k).0 == '！' ==> bang_ending(punct_rule(k).1),
{
}

/// `p` ends `x` and `ph`'s last two characters differ from `p`'s: `ph` does
/// not end `x`.
proof fn lemma_not_ends(x: Seq<char>, p: Seq<char>, ph: Seq<char>)
    requires
        ends_with(x, p),
        p.len() >= 2,
        ph.len() >= 2,
        ph.last() != p.last() || ph[ph.len() - 2] != p[p.len() - 2],
    ensures
        !ends_with(x, ph),
{
    if ends_with(x, ph) {
        let n = x.len() as int;
        assert(x[n - 1] == p.last()) by {
            assert(x.subrange(n - p.len(), n)[p.len() - 1] == x[n - 1]);
        }
        assert(x[n - 2] == p[p.len() - 2]) by {
            assert(x.subrange(n - p.len(), n)[p.len() - 2] == x[n - 2]);
        }
        assert(x[n - 1] == ph.last()) by {
            assert(x.subrange(n - ph.len(), n)[ph.len() - 1] == x[n - 1]);
        }
        assert(x[n - 2] == ph[ph.len() - 2]) by {
            assert(x.subrange(n - ph.len(), n)[ph.len() - 2] == x[n - 2]);
        }
    }
}

pub open spec fn no_clause_mark(p: Seq<char>) -> bool {
    forall|i: int| 0 <= i < p.len() ==> !is_clause_mark(#[trigger] p[i])
}

/// Phrase marks leave a text ending in `p` ending in `p`; a text ending in
/// `p` and a clause mark keeps `p` and gets `m` in place of the mark when
/// `ph` ends the text before it.
proof fn lemma_marks_suffix(s: Seq<char>, m: char, ph: Seq<char>, p: Seq<char>, e: Option<char>)
    requires
        no_clause_mark(p),
        e matches Some(c) ==> is_clause_mark(c),
        ends_with(s, p + (match e {
            Some(c) => seq![c],
            None => Seq::empty(),
        })),
    ensures
        phrase_marks(s, m, ph).len() == s.len(),
        e is None ==> ends_with(phrase_marks(s, m, ph), p),
        e matches Some(c) ==> ends_with(
            phrase_marks(s, m, ph),
            p + seq![if ends_with(s.drop_last(), ph) { m } else { c }],
        ),
{
    let tail: Seq<char> = match e {
        Some(c) => seq![c],
        None => Seq::empty(),
    };
    let r = phrase_marks(s, m, ph);
    let n = s.len() as int;
    let off = n - tail.len() - p.len();
    let x = p + tail;
    assert forall|j: int| off <= j < n - tail.len() implies r[j] == s[j] by {
        assert(s[j] == s.subrange(n - x.len(), n)[j - off]);
        assert(s[j] == p[j - off]);
    }
    match e {
        None => {
            assert(r.subrange(off, n) =~= p) by {
                assert forall|j: int| 0 <= j < p.len() implies r.subrange(off, n)[j] == p[j] by {
                    assert(s.subrange(n - x.len(), n)[j] == s[off + j]);
                }
            }
        },
        Some(c) => {
            let j = n - 1;
            assert(s[j] == c) by {
                assert(s.subrange(n - x.len(), n)[p.len() as int] == s[j]);
            }
            let cond = j >= ph.len() && s.subrange(j - ph.len(), j) == ph;
            assert(cond == ends_with(s.drop_last(), ph)) by {
                if j >= ph.len() {
                    assert(s.drop_last().subrange(j - ph.len(), j) =~= s.subrange(j - ph.len(), j));
                }
            }
            let y = p + seq![if ends_with(s.drop_last(), ph) { m } else { c }];
            assert(r.subrange(off, n) =~= y) by {
                assert forall|q: int| 0 <= q < y.len() implies r.subrange(off, n)[q] == y[q] by {
                    if q < p.len() {
                        assert(s.subrange(n - x.len(), n)[q] == s[off + q]);
                    }
                }
            }
        },
    }
}

proof fn lemma_final_suffix(s: Seq<char>, m: char, ph: Seq<char>, p: Seq<char>, e: Option<char>)
    requires
        e matches Some(c) ==> is_clause_mark(c),
        ph.len() >= 1,
        !is_clause_mark(ph.last()),
        ends_with(s, p + (match e {
            Some(c) => seq![c],
            None => Seq::empty(),
        })),
    ensures
        e is Some ==> final_phrase_mark(s, m, ph) == s,
        e is None ==> final_phrase_mark(s, m, ph) == (if ends_with(s, ph) { s.push(m) } else { s }),
        e is None && ends_with(s, ph) ==> ends_with(s.push(m), p + seq![m]),
{
    let tail: Seq<char> = match e {
        Some(c) => seq![c],
        None => Seq::empty(),
    };
    let n = s.len() as int;
    let x = p + tail;
    if let Some(c) = e {
        assert(s[n - 1] == c) by {
            assert(s.subrange(n - x.len(), n)[x.len() - 1] == s[n - 1]);
        }
        if ends_with(s, ph) {
            assert(s.subrange(n - ph.len(), n)[ph.len() - 1] == s[n - 1]);
        }
    } else {
        let r = s.push(m);
        assert(r.subrange(r.len() - (p.len() + 1), r.len() as int) =~= p + seq![m]) by {
            assert forall|q: int| 0 <= q < p.len() implies r[n - p.len() + q] == p[q] by {
                assert(s.subrange(n - x.len(), n)[q] == s[n - p.len() + q]);
            }
        }
    }
}

/// The facts a question phrase brings: it has no clause mark, it ends
/// unlike every exclamation phrase, and its rule marks it with ？.
pub open spec fn question_rule_ready(p: Seq<char>, kp: int) -> bool {
    &&& p.len() >= 2
    &&& no_clause_mark(p)
    &&& 0 <= kp < PUNCT_RULE_COUNT
    &&& punct_rule(kp as usize) == ('？', p)
    &&& forall|k: int|
        0 <= k < PUNCT_RULE_COUNT && #[trigger] punct_rule(k as usize).0 == '！' ==> punct_rule(
            k as usize,
        ).1.last() != p.last() || punct_rule(k as usize).1[punct_rule(k as usize).1.len() - 2]
            != p[p.len() - 2]
}

/// Through the phrase rules, a text ending in `p` (and at most one mark)
/// keeps ending in `p` and one mark, and from the rule of `p` on that mark
/// is ？.
proof fn lemma_rules_suffix(s0: Seq<char>, p: Seq<char>, kp: int, k: int)
    requires
        question_rule_ready(p, kp),
        0 <= k <= PUNCT_RULE_COUNT,
        ends_with(s0, p) || ends_with(s0, p + seq!['！']) || ends_with(s0, p + seq!['？']),
    ensures
        ends_with(phrase_rules_applied(s0, k), p) || ends_with(phrase_rules_applied(s0, k), p
            + seq!['！']) || ends_with(phrase_rules_applied(s0, k), p + seq!['？']),
        k > kp ==> ends_with(phrase_rules_applied(s0, k), p + seq!['？']),
    decreases k,
{
    if k > 0 {
        lemma_rules_suffix(s0, p, kp, k - 1);
        let t = phrase_rules_applied(s0, k - 1);
        let (m, ph) = punct_rule((k - 1) as usize);
        lemma_rule_facts((k - 1) as usize);
        let u = phrase_marks(t, m, ph);
        assert(phrase_rules_applied(s0, k) == final_phrase_mark(u, m, ph));
        let none: Option<char> = None;
        let bang: Option<char> = Some('！');
        let ques: Option<char> = Some('？');
        assert(p + Seq::<char>::empty() =~= p);
        if ends_with(t, p + seq!['？']) || ends_with(t, p + seq!['！']) {
            let c = if ends_with(t, p + seq!['？']) { '？' } else { '！' };
            let e: Option<char> = Some(c);
            assert(ends_with(t, p + seq![c]));
            lemma_marks_suffix(t, m, ph, p, e);
            assert(ends_with(t.drop_last(), p)) by {
                let n = t.len() as int;
                assert(t.drop_last().subrange(n - 1 - p.len(), n - 1) =~= p) by {
                    assert forall|q: int| 0 <= q < p.len() implies t.drop_last().subrange(
                        n - 1 - p.len(),
                        n - 1,
                    )[q] == p[q] by {
                        assert(t.subrange(n - (p.len() + 1), n)[q] == t[n - 1 - p.len() + q]);
                        assert((p + seq![c])[q] == p[q]);
                    }
                }
            }
            if m == '！' {
                lemma_not_ends(t.drop_last(), p, ph);
            }
            if k - 1 == kp {
                assert(ph == p);
            }
            let c2 = if ends_with(t.drop_last(), ph) { m } else { c };
            lemma_final_suffix(u, m, ph, p, Some(c2));
        } else {
            lemma_marks_suffix(t, m, ph, p, none);
            lemma_final_suffix(u, m, ph, p, none);
            if m == '！' {
                lemma_not_ends(u, p, ph);
            }
            if k - 1 == kp {
                assert(ph == p);
            }
        }
    }
}

/// The 吼 rewrites leave a text ending in `p` and ？ as it ends, when `p`
/// holds no 哈 and each 好 in it is followed, within `p`, by a character
/// that is no pause, or follows, within `p`, no trigger character.
proof fn lemma_hou_suffix(s: Seq<char>, p: Seq<char>)
    requires
        ends_with(s, p + seq!['？']),
        forall|i: int| 0 <= i < p.len() ==> #[trigger] p[i] != '哈',
        forall|i: int|
            0 <= i < p.len() && #[trigger] p[i] == '好' ==> (i + 1 < p.len() && !is_pause_mark(
                p[i + 1],
            )) || (i > 0 && !is_hao_trigger(p[i - 1])),
    ensures
        ends_with(hao_to_hou(ha_to_hou(s)), p + seq!['？']),
{
    let x = p + seq!['？'];
    let n = s.len() as int;
    let off = n - x.len();
    assert forall|q: int| 0 <= q < x.len() implies s[off + q] == x[q] by {
        assert(s.subrange(off, n)[q] == s[off + q]);
    }
    let h = ha_to_hou(s);
    assert forall|q: int| 0 <= q < x.len() implies h[off + q] == x[q] by {
        assert(s[off + q] == x[q]);
    }
    let r = hao_to_hou(h);
    assert forall|q: int| 0 <= q < x.len() implies r[off + q] == x[q] by {
        assert(h[off + q] == x[q]);
        if q < p.len() && x[q] == '好' {
            assert(p[q] == '好');
            if q + 1 < p.len() && !is_pause_mark(p[q + 1]) {
                assert(h[off + q + 1] == x[q + 1]);
            } else {
                assert(h[off + q - 1] == x[q - 1]);
            }
        }
    }
    assert(r.subrange(off, n) =~= x);
}

/// A text ending in one of the question phrases (什么啊, 可以吗, 行不行, 好不好,
/// ...) comes out ending in that phrase and ？.
pub proof fn law_question_phrase_marked(t: Seq<char>, p: Seq<char>)
    requires
        question_phrases().contains(p),
    ensures
        ends_with(spec_apply_punct_rules(t + p), p + seq!['？']),
{
    let qs = question_phrases();
    let i = choose|i: int| 0 <= i < qs.len() && qs[i] == p;
    assert(qs[i] == p);
    let kp = i;
    assert forall|k: int| 0 <= k < PUNCT_RULE_COUNT && #[trigger] punct_rule(k as usize).0 == '！'
        implies bang_ending(punct_rule(k as usize).1) by {
        lemma_rule_facts(k as usize);
    }
    assert(punct_rule(kp as usize) == ('？', p));
    assert(p.len() >= 2);
    assert(no_clause_mark(p));
    assert(p.last() == '啊' ==> p[p.len() - 2] == '么');
    assert(p.last() == '啊' || p.last() == '吗' || p.last() == '是' || p.last() == '对'
        || p.last() == '行' || p.last() == '好' || p.last() == '要' || p.last() == '有'
        || p.last() == '能');
    assert(question_rule_ready(p, kp));
    let s = t + p;
    let n = s.len() as int;
    assert(s.subrange(n - p.len(), n) =~= p);
    let pm = particle_marks(s);
    assert(pm.subrange(n - p.len(), n) =~= p) by {
        assert forall|q: int| 0 <= q < p.len() implies pm[n - p.len() + q] == p[q] by {
            assert(s[n - p.len() + q] == p[q]);
            assert(!is_clause_mark(p[q]));
        }
    }
    let s0 = final_particle_mark(pm);
    if is_particle(pm.last()) {
        let mk = particle_mark(pm.last());
        assert(s0.subrange(n - p.len(), n + 1) =~= p + seq![mk]) by {
            assert forall|q: int| 0 <= q < p.len() implies s0[n - p.len() + q] == p[q] by {
                assert(pm.subrange(n - p.len(), n)[q] == pm[n - p.len() + q]);
            }
        }
    }
    assert(p + Seq::<char>::empty() =~= p);
    lemma_rules_suffix(s0, p, kp, PUNCT_RULE_COUNT as int);
    assert(forall|q: int| 0 <= q < p.len() ==> #[trigger] p[q] != '哈');
    lemma_hou_suffix(phrase_rules_applied(s0, PUNCT_RULE_COUNT as int), p);
}

proof fn lemma_rules_no_new_char(s: Seq<char>, c: char, k: int)
    requires
        !s.contains(c),
        c != '？',
        c != '！',
        0 <= k <= PUNCT_RULE_COUNT,
    ensures
        !phrase_rules_applied(s, k).contains(c),
    decreases k,
{
    if k > 0 {
        lemma_rules_no_new_char(s, c, k - 1);
        let t = phrase_rules_applied(s, k - 1);
        let (m, ph) = punct_rule((k - 1) as usize);
        lemma_rule_facts((k - 1) as usize);
        let u = phrase_marks(t, m, ph);
        assert forall|j: int| 0 <= j < u.len() implies u[j] != c by {
            assert(t[j] != c);
        }
        let r = final_phrase_mark(u, m, ph);
        assert forall|j: int| 0 <= j < r.len() implies r[j] != c by {
            if j < u.len() {
                assert(u[j] != c);
            }
        }
    }
}

/// The punctuation rules bring in no character but ？, ！ and 吼.
pub proof fn law_punct_no_new_char(s: Seq<char>, c: char)
    requires
        !s.contains(c),
        c != '？',
        c != '！',
        c != '吼',
    ensures
        !spec_apply_punct_rules(s).contains(c),
{
    if s.len() > 0 {
        let pm = particle_marks(s);
        assert forall|j: int| 0 <= j < pm.len() implies pm[j] != c by {
            assert(s[j] != c);
        }
        let s0 = final_particle_mark(pm);
        assert forall|j: int| 0 <= j < s0.len() implies s0[j] != c by {
            if j < pm.len() {
                assert(pm[j] != c);
            }
        }
        lemma_rules_no_new_char(s0, c, PUNCT_RULE_COUNT as int);
        let r1 = phrase_rules_applied(s0, PUNCT_RULE_COUNT as int);
        let h = ha_to_hou(r1);
        assert forall|j: int| 0 <= j < h.len() implies h[j] != c by {
            assert(r1[j] != c);
        }
        let r = hao_to_hou(h);
        assert forall|j: int| 0 <= j < r.len() implies r[j] != c by {
            assert(h[j] != c);
        }
    }
}
} // verus!
