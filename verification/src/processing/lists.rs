//! Step 6 (opt-in): 第一…第二… lists become numbered lines.
use vstd::prelude::*;

use crate::chars::{
    chars_of, is_cjk, is_white, is_white_char, lemma_contains_concat, lemma_subrange_absent,
    lemma_trim_end_absent, lemma_trim_start_absent, matches_at, push_all, slice_of, string_of,
    trim, trim_end_by, trim_start_by, trim_vec, white,
};

verus! {

/// Ordinal characters that may follow 第 in a list marker.
pub open spec fn is_ordinal(c: char) -> bool {
    c == '一' || c == '二' || c == '三' || c == '四' || c == '五' || c == '六' || c == '七'
        || c == '八' || c == '九' || c == '十' || c == '兩' || c == '两'
}

/// Characters after 第X that make it a count (第一次, 第一名, 第一件), not a marker.
pub open spec fn is_count_word(c: char) -> bool {
    c == '次' || c == '名' || c == '件'
}

/// A list marker 第X starts at `p`.
pub open spec fn is_marker(s: Seq<char>, p: int) -> bool {
    &&& 0 <= p
    &&& p + 1 < s.len()
    &&& s[p] == '第'
    &&& is_ordinal(s[p + 1])
    &&& !(p + 2 < s.len() && is_count_word(s[p + 2]))
}

/// The marker positions below `k`, in order.
pub open spec fn markers_below(s: Seq<char>, k: int) -> Seq<int>
    decreases k,
{
    if k <= 0 {
        Seq::empty()
    } else if is_marker(s, k - 1) {
        markers_below(s, k - 1).push(k - 1)
    } else {
        markers_below(s, k - 1)
    }
}

pub open spec fn list_markers(s: Seq<char>) -> Seq<int> {
    markers_below(s, s.len() as int)
}

/// Measure words that may open an item (第一個…, 第二步…).
pub open spec fn is_classifier(c: char) -> bool {
    c == '個' || c == '个' || c == '件' || c == '位' || c == '種' || c == '种' || c == '項'
        || c == '项' || c == '條' || c == '条' || c == '張' || c == '张' || c == '份' || c == '步'
        || c == '點' || c == '点'
}

pub open spec fn starts_with(t: Seq<char>, p: Seq<char>) -> bool {
    p.len() <= t.len() && t.take(p.len() as int) == p
}

/// Nouns that may open an item, in the order they are tried.
pub open spec fn noun_alt(k: usize) -> Seq<char> {
    match k {
        0 => seq!['事', '情'],
        1 => seq!['事', '兒'],
        2 => seq!['事', '儿'],
        3 => seq!['事'],
        4 => seq!['東', '西'],
        5 => seq!['东', '西'],
        6 => seq!['原', '因'],
        7 => seq!['問', '題'],
        8 => seq!['问', '题'],
        9 => seq!['地', '方'],
        10 => seq!['方', '面'],
        11 => seq!['步', '驟'],
        12 => seq!['步', '骤'],
        _ => Seq::empty(),
    }
}

pub const NOUN_ALTS: usize = 13;

/// Verbs that may open an item, in the order they are tried.
pub open spec fn verb_alt(k: usize) -> Seq<char> {
    match k {
        0 => seq!['是'],
        1 => seq!['為'],
        2 => seq!['为'],
        3 => seq!['要'],
        4 => seq!['就', '是'],
        _ => Seq::empty(),
    }
}

pub const VERB_ALTS: usize = 5;

/// Length of the first noun among alternatives `k..` that `t` starts with.
pub open spec fn noun_len_from(t: Seq<char>, k: usize) -> int
    decreases NOUN_ALTS - k,
{
    if k >= NOUN_ALTS {
        0
    } else if starts_with(t, noun_alt(k)) {
        noun_alt(k).len() as int
    } else {
        noun_len_from(t, (k + 1) as usize)
    }
}

/// Length of the first verb among alternatives `k..` that `t` starts with.
pub open spec fn verb_len_from(t: Seq<char>, k: usize) -> int
    decreases VERB_ALTS - k,
{
    if k >= VERB_ALTS {
        0
    } else if starts_with(t, verb_alt(k)) {
        verb_alt(k).len() as int
    } else {
        verb_len_from(t, (k + 1) as usize)
    }
}

/// A leading measure word, with one space after it if there is one.
pub open spec fn classifier_len(t: Seq<char>) -> int {
    if t.len() > 0 && is_classifier(t[0]) {
        if t.len() > 1 && t[1] == ' ' {
            2
        } else {
            1
        }
    } else {
        0
    }
}

pub open spec fn is_item_sep(c: char) -> bool {
    c == '，' || c == ',' || c == '、' || c == '：' || c == ':' || c == '。' || c == '　'
        || is_white(c)
}

pub open spec fn is_item_tail(c: char) -> bool {
    c == '。' || c == '，' || c == ',' || c == '、' || c == '；' || c == ';' || c == '　'
        || c == ' '
}

pub open spec fn is_intro_tail(c: char) -> bool {
    c == '，' || c == ',' || c == '、' || c == '：' || c == ':' || c == '；' || c == ';'
        || c == '。' || c == '　' || c == ' '
}

pub open spec fn item_sep() -> spec_fn(char) -> bool {
    |c: char| is_item_sep(c)
}

pub open spec fn item_tail() -> spec_fn(char) -> bool {
    |c: char| is_item_tail(c)
}

pub open spec fn intro_tail() -> spec_fn(char) -> bool {
    |c: char| is_intro_tail(c)
}

/// The text of one item: after an optional measure word, then an optional
/// noun (事情, 原因, ...), then an optional verb (是, 要, ...) and the
/// separators that follow, trimmed, without trailing punctuation.
pub open spec fn list_item(t: Seq<char>) -> Seq<char> {
    let u1 = t.skip(classifier_len(t));
    let u2 = u1.skip(noun_len_from(u1, 0));
    let u3 = u2.skip(verb_len_from(u2, 0));
    trim_end_by(trim(trim_start_by(u3, item_sep())), item_tail())
}

/// One of the measure words 個 个 件 位 種 种 項 项 條 条 張 张 份 步 點 点.
pub open spec fn is_listed_measure_word(c: char) -> bool {
    seq!['個', '个', '件', '位', '種', '种', '項', '项', '條', '条', '張', '张', '份', '步', '點', '点'].contains(c)
}

proof fn lemma_listed_measure_word(c: char)
    ensures
        is_listed_measure_word(c) <==> (c == '個' || c == '个' || c == '件' || c == '位' || c
            == '種' || c == '种' || c == '項' || c == '项' || c == '條' || c == '条' || c == '張'
            || c == '张' || c == '份' || c == '步' || c == '點' || c == '点'),
{
    let m = seq!['個', '个', '件', '位', '種', '种', '項', '项', '條', '条', '張', '张', '份', '步', '點', '点'];
    if m.contains(c) {
        let k = choose|k: int| 0 <= k < m.len() && m[k] == c;
        assert(m[k] == c);
    }
    if c == '個' { assert(m[0] == c); }
    if c == '个' { assert(m[1] == c); }
    if c == '件' { assert(m[2] == c); }
    if c == '位' { assert(m[3] == c); }
    if c == '種' { assert(m[4] == c); }
    if c == '种' { assert(m[5] == c); }
    if c == '項' { assert(m[6] == c); }
    if c == '项' { assert(m[7] == c); }
    if c == '條' { assert(m[8] == c); }
    if c == '条' { assert(m[9] == c); }
    if c == '張' { assert(m[10] == c); }
    if c == '张' { assert(m[11] == c); }
    if c == '份' { assert(m[12] == c); }
    if c == '步' { assert(m[13] == c); }
    if c == '點' { assert(m[14] == c); }
    if c == '点' { assert(m[15] == c); }
}

/// A measure word that opens an item (第一步洗米, 第二個 問題) is dropped,
/// with one space after it: the item reads as the text after it, provided
/// that text does not itself open with a measure word (nor, without the
/// space, with a space).
pub proof fn law_item_measure_word_dropped(c: char, x: Seq<char>)
    requires
        is_listed_measure_word(c),
        x.len() > 0 ==> !is_listed_measure_word(x[0]),
    ensures
        x.len() > 0 && x[0] != ' ' ==> list_item(seq![c] + x) == list_item(x),
        x.len() == 0 ==> list_item(seq![c]) == list_item(x),
        list_item(seq![c, ' '] + x) == list_item(x),
{
    lemma_listed_measure_word(c);
    if x.len() > 0 {
        lemma_listed_measure_word(x[0]);
        assert(classifier_len(x) == 0);
        assert((seq![c] + x)[1] == x[0]);
        assert((seq![c] + x).skip(1) =~= x);
    } else {
        assert(classifier_len(x) == 0);
        assert(seq![c] + x =~= seq![c]);
        assert(seq![c].skip(1) =~= x);
    }
    assert(x.skip(0) =~= x);
    assert((seq![c, ' '] + x).skip(2) =~= x);
    assert((seq![c, ' '] + x)[1] == ' ');
}

/// The text between marker `idx` and the next marker (or the end).
pub open spec fn segment(s: Seq<char>, ms: Seq<int>, idx: int) -> Seq<char> {
    s.subrange(ms[idx] + 2, if idx + 1 < ms.len() { ms[idx + 1] } else { s.len() as int })
}

/// The non-empty items of the first `k` markers.
pub open spec fn items_upto(s: Seq<char>, ms: Seq<int>, k: int) -> Seq<Seq<char>>
    decreases k,
{
    if k <= 0 {
        Seq::empty()
    } else if list_item(segment(s, ms, k - 1)).len() > 0 {
        items_upto(s, ms, k - 1).push(list_item(segment(s, ms, k - 1)))
    } else {
        items_upto(s, ms, k - 1)
    }
}

/// The text before the first marker, trimmed, without trailing punctuation.
pub open spec fn list_intro(s: Seq<char>, ms: Seq<int>) -> Seq<char> {
    trim_end_by(trim(s.take(ms[0])), intro_tail())
}

pub const DIGITS: [char; 10] = ['0', '1', '2', '3', '4', '5', '6', '7', '8', '9'];

/// Decimal notation of `n`.
pub open spec fn decimal(n: nat) -> Seq<char>
    decreases n,
{
    if n < 10 {
        seq![DIGITS@[n as int]]
    } else {
        decimal(n / 10).push(DIGITS@[(n % 10) as int])
    }
}

pub open spec fn numbered_line(items: Seq<Seq<char>>, i: int) -> Seq<char> {
    decimal((i + 1) as nat) + seq!['.', ' '] + items[i]
}

/// The first `k` items as numbered lines joined by line breaks.
pub open spec fn numbered_lines(items: Seq<Seq<char>>, k: int) -> Seq<char>
    decreases k,
{
    if k <= 0 {
        Seq::empty()
    } else if k == 1 {
        numbered_line(items, 0)
    } else {
        numbered_lines(items, k - 1) + seq!['\n'] + numbered_line(items, k - 1)
    }
}

/// A text with at least two markers, the first one 第一, and at least two
/// non-empty items becomes its intro (if any) followed by `：` and the
/// numbered items, one per line; any other text is returned unchanged.
pub open spec fn spec_format_lists(s: Seq<char>) -> Seq<char> {
    let ms = list_markers(s);
    if s.len() == 0 {
        s
    } else if ms.len() < 2 || s[ms[0] + 1] != '一' {
        s
    } else {
        let items = items_upto(s, ms, ms.len() as int);
        if items.len() < 2 {
            s
        } else {
            let body = numbered_lines(items, items.len() as int);
            let intro = list_intro(s, ms);
            if intro.len() == 0 {
                body
            } else {
                intro + seq!['：', '\n'] + body
            }
        }
    }
}

fn is_ordinal_char(c: char) -> (b: bool)
    ensures
        b == is_ordinal(c),
{
    c == '一' || c == '二' || c == '三' || c == '四' || c == '五' || c == '六' || c == '七'
        || c == '八' || c == '九' || c == '十' || c == '兩' || c == '两'
}

fn is_classifier_char(c: char) -> (b: bool)
    ensures
        b == is_classifier(c),
{
    c == '個' || c == '个' || c == '件' || c == '位' || c == '種' || c == '种' || c == '項'
        || c == '项' || c == '條' || c == '条' || c == '張' || c == '张' || c == '份' || c == '步'
        || c == '點' || c == '点'
}

fn is_marker_at(v: &Vec<char>, p: usize) -> (b: bool)
    requires
        p < v.len(),
    ensures
        b == is_marker(v@, p as int),
{
    if v.len() - p < 2 || v[p] != '第' || !is_ordinal_char(v[p + 1]) {
        return false;
    }
    if v.len() - p > 2 {
        let c = v[p + 2];
        if c == '次' || c == '名' || c == '件' {
            return false;
        }
    }
    true
}

fn noun_alt_of(k: usize) -> (r: Vec<char>)
    requires
        k < NOUN_ALTS,
    ensures
        r@ == noun_alt(k),
{
    match k {
        0 => vec!['事', '情'],
        1 => vec!['事', '兒'],
        2 => vec!['事', '儿'],
        3 => vec!['事'],
        4 => vec!['東', '西'],
        5 => vec!['东', '西'],
        6 => vec!['原', '因'],
        7 => vec!['問', '題'],
        8 => vec!['问', '题'],
        9 => vec!['地', '方'],
        10 => vec!['方', '面'],
        11 => vec!['步', '驟'],
        12 => vec!['步', '骤'],
        _ => Vec::new(),
    }
}

fn verb_alt_of(k: usize) -> (r: Vec<char>)
    requires
        k < VERB_ALTS,
    ensures
        r@ == verb_alt(k),
{
    match k {
        0 => vec!['是'],
        1 => vec!['為'],
        2 => vec!['为'],
        3 => vec!['要'],
        4 => vec!['就', '是'],
        _ => Vec::new(),
    }
}

fn starts_with_vec(t: &Vec<char>, p: &Vec<char>) -> (b: bool)
    ensures
        b == starts_with(t@, p@),
{
    let b = matches_at(t, p, 0);
    proof {
        if p.len() <= t.len() {
            assert(t@.subrange(0, p.len() as int) =~= t@.take(p.len() as int));
        }
    }
    b
}

fn noun_len(t: &Vec<char>) -> (n: usize)
    ensures
        n as int == noun_len_from(t@, 0),
        n <= t.len(),
{
    let mut k: usize = 0;
    while k < NOUN_ALTS
        invariant
            k <= NOUN_ALTS,
            noun_len_from(t@, 0) == noun_len_from(t@, k),
        decreases NOUN_ALTS - k,
    {
        let alt = noun_alt_of(k);
        if starts_with_vec(t, &alt) {
            return alt.len();
        }
        k += 1;
    }
    0
}

fn verb_len(t: &Vec<char>) -> (n: usize)
    ensures
        n as int == verb_len_from(t@, 0),
        n <= t.len(),
{
    let mut k: usize = 0;
    while k < VERB_ALTS
        invariant
            k <= VERB_ALTS,
            verb_len_from(t@, 0) == verb_len_from(t@, k),
        decreases VERB_ALTS - k,
    {
        let alt = verb_alt_of(k);
        if starts_with_vec(t, &alt) {
            return alt.len();
        }
        k += 1;
    }
    0
}

fn is_item_sep_char(c: char) -> (b: bool)
    ensures
        b == is_item_sep(c),
{
    c == '，' || c == ',' || c == '、' || c == '：' || c == ':' || c == '。' || c == '　'
        || is_white_char(c)
}

fn is_item_tail_char(c: char) -> (b: bool)
    ensures
        b == is_item_tail(c),
{
    c == '。' || c == '，' || c == ',' || c == '、' || c == '；' || c == ';' || c == '　'
        || c == ' '
}

fn is_intro_tail_char(c: char) -> (b: bool)
    ensures
        b == is_intro_tail(c),
{
    c == '，' || c == ',' || c == '、' || c == '：' || c == ':' || c == '；' || c == ';'
        || c == '。' || c == '　' || c == ' '
}

/// Drops the leading separators.
fn skip_item_seps(v: &Vec<char>) -> (r: Vec<char>)
    ensures
        r@ == trim_start_by(v@, item_sep()),
{
    let mut i: usize = 0;
    assert(v@.skip(0) =~= v@);
    while i < v.len() && is_item_sep_char(v[i])
        invariant
            i <= v.len(),
            trim_start_by(v@, item_sep()) == trim_start_by(v@.skip(i as int), item_sep()),
        decreases v.len() - i,
    {
        assert(v@.skip(i as int).drop_first() =~= v@.skip(i + 1));
        i += 1;
    }
    let r = slice_of(v, i, v.len());
    assert(r@ =~= v@.skip(i as int));
    r
}

fn in_tail_set(c: char, tail: bool) -> (b: bool)
    ensures
        tail ==> b == is_item_tail(c),
        !tail ==> b == is_intro_tail(c),
{
    if tail {
        is_item_tail_char(c)
    } else {
        is_intro_tail_char(c)
    }
}

/// Drops the trailing characters of the item tail set (`tail`) or of the
/// intro tail set (otherwise).
fn drop_tail(v: &Vec<char>, tail: bool) -> (r: Vec<char>)
    ensures
        tail ==> r@ == trim_end_by(v@, item_tail()),
        !tail ==> r@ == trim_end_by(v@, intro_tail()),
{
    let ghost p = if tail {
        item_tail()
    } else {
        intro_tail()
    };
    let mut j: usize = v.len();
    assert(v@.take(v.len() as int) =~= v@);
    while j > 0 && in_tail_set(v[j - 1], tail)
        invariant
            j <= v.len(),
            p == (if tail {
                item_tail()
            } else {
                intro_tail()
            }),
            trim_end_by(v@, p) == trim_end_by(v@.take(j as int), p),
        decreases j,
    {
        assert(v@.take(j as int).drop_last() =~= v@.take(j - 1));
        j -= 1;
    }
    let r = slice_of(v, 0, j);
    assert(r@ =~= v@.take(j as int));
    r
}

fn clean_item(t: &Vec<char>) -> (r: Vec<char>)
    ensures
        r@ == list_item(t@),
{
    let a: usize = if t.len() > 0 && is_classifier_char(t[0]) {
        if t.len() > 1 && t[1] == ' ' {
            2
        } else {
            1
        }
    } else {
        0
    };
    let u1 = slice_of(t, a, t.len());
    assert(u1@ =~= t@.skip(classifier_len(t@)));
    let b = noun_len(&u1);
    let u2 = slice_of(&u1, b, u1.len());
    assert(u2@ =~= u1@.skip(b as int));
    let c = verb_len(&u2);
    let u3 = slice_of(&u2, c, u2.len());
    assert(u3@ =~= u2@.skip(c as int));
    let u4 = skip_item_seps(&u3);
    let u5 = trim_vec(&u4);
    drop_tail(&u5, true)
}

fn push_decimal(out: &mut Vec<char>, n: usize)
    ensures
        final(out)@ == old(out)@ + decimal(n as nat),
    decreases n,
{
    if n >= 10 {
        push_decimal(out, n / 10);
    }
    out.push(DIGITS[n % 10]);
    proof {
        if n >= 10 {
            assert(decimal(n as nat) == decimal((n / 10) as nat).push(DIGITS@[(n % 10) as int]));
        }
    }
}

/// Rewrites a spoken list (今天要做三件事第一是買菜第二是煮飯第三是洗碗) as an
/// intro followed by numbered lines (1. 買菜 / 2. 煮飯 / 3. 洗碗); text that is
/// not such a list is returned unchanged.
pub fn format_lists(text: &str) -> (res: String)
    ensures
        res@ == spec_format_lists(text@),
{
    let v = chars_of(text);
    let n = v.len();
    if n == 0 {
        return String::new();
    }
    let ghost s = v@;
    let mut ms: Vec<usize> = Vec::new();
    let mut p: usize = 0;
    while p < n
        invariant
            n == v.len(),
            s == v@,
            p <= n,
            ms@.len() == markers_below(s, p as int).len(),
            forall|i: int| 0 <= i < ms@.len() ==> ms@[i] as int == markers_below(s, p as int)[i],
            forall|i: int| 0 <= i < ms@.len() ==> #[trigger] ms@[i] < p,
            forall|i: int| 0 <= i < ms@.len() ==> is_marker(s, #[trigger] ms@[i] as int),
            forall|i: int, j: int| 0 <= i < j < ms@.len() ==> #[trigger] ms@[i] + 2 <= #[trigger] ms@[j],
        decreases n - p,
    {
        if is_marker_at(&v, p) {
            assert forall|i: int| 0 <= i < ms@.len() implies ms@[i] + 2 <= p by {
                assert(is_marker(s, ms@[i] as int));
            }
            ms.push(p);
        }
        p += 1;
    }
    let ghost m = list_markers(s);
    assert(m.len() == ms@.len());
    if ms.len() < 2 || v[ms[0] + 1] != '一' {
        return string_of(&v);
    }
    let head = slice_of(&v, 0, ms[0]);
    let intro = drop_tail(&trim_vec(&head), false);
    let mut items: Vec<Vec<char>> = Vec::new();
    let mut idx: usize = 0;
    while idx < ms.len()
        invariant
            n == v.len(),
            s == v@,
            m == list_markers(s),
            ms@.len() == m.len(),
            forall|i: int| 0 <= i < ms@.len() ==> ms@[i] as int == m[i],
            forall|i: int| 0 <= i < ms@.len() ==> is_marker(s, #[trigger] ms@[i] as int),
            forall|i: int, j: int| 0 <= i < j < ms@.len() ==> #[trigger] ms@[i] + 2 <= #[trigger] ms@[j],
            idx <= ms.len(),
            items@.len() == items_upto(s, m, idx as int).len(),
            forall|i: int| 0 <= i < items@.len() ==> #[trigger] items@[i]@ == items_upto(s, m, idx as int)[i],
        decreases ms.len() - idx,
    {
        let end = if idx + 1 < ms.len() {
            ms[idx + 1]
        } else {
            n
        };
        assert(is_marker(s, ms@[idx as int] as int));
        let seg = slice_of(&v, ms[idx] + 2, end);
        assert(seg@ == segment(s, m, idx as int));
        let item = clean_item(&seg);
        if item.len() > 0 {
            items.push(item);
        }
        idx += 1;
    }
    let ghost its = items_upto(s, m, m.len() as int);
    if items.len() < 2 {
        return string_of(&v);
    }
    let mut out: Vec<char> = Vec::new();
    if intro.len() > 0 {
        push_all(&mut out, &intro);
        out.push('：');
        out.push('\n');
    }
    let ghost lead = out@;
    let mut i: usize = 0;
    while i < items.len()
        invariant
            items@.len() == its.len(),
            forall|t: int| 0 <= t < items@.len() ==> #[trigger] items@[t]@ == its[t],
            i <= items.len(),
            out@ == lead + numbered_lines(its, i as int),
        decreases items.len() - i,
    {
        if i > 0 {
            out.push('\n');
        }
        push_decimal(&mut out, i + 1);
        out.push('.');
        out.push(' ');
        push_all(&mut out, &items[i]);
        i += 1;
    }
    string_of(&out)
}


proof fn lemma_markers_below(s: Seq<char>, k: int)
    requires
        0 <= k <= s.len(),
    ensures
        forall|i: int|
            0 <= i < markers_below(s, k).len() ==> is_marker(s, #[trigger] markers_below(s, k)[i])
                && markers_below(s, k)[i] < k,
        forall|i: int, j: int|
            0 <= i < j < markers_below(s, k).len() ==> #[trigger] markers_below(s, k)[i] + 2
                <= #[trigger] markers_below(s, k)[j],
    decreases k,
{
    if k > 0 {
        lemma_markers_below(s, k - 1);
        let prev = markers_below(s, k - 1);
        if is_marker(s, k - 1) {
            let ms = markers_below(s, k);
            assert forall|i: int, j: int|
                0 <= i < j < ms.len() implies #[trigger] ms[i] + 2 <= #[trigger] ms[j] by {
                if j == ms.len() - 1 {
                    assert(is_marker(s, prev[i]));
                    assert(prev[i] + 1 != k - 1);
                } else {
                    assert(ms[i] == prev[i] && ms[j] == prev[j]);
                }
            }
        }
    }
}

proof fn lemma_item_absent(t: Seq<char>, c: char)
    requires
        !t.contains(c),
    ensures
        !list_item(t).contains(c),
{
    let u1 = t.skip(classifier_len(t));
    lemma_subrange_absent(t, classifier_len(t), t.len() as int, c);
    assert(u1 =~= t.subrange(classifier_len(t), t.len() as int));
    let nl = noun_len_from(u1, 0);
    lemma_noun_len_bound(u1, 0);
    let u2 = u1.skip(nl);
    lemma_subrange_absent(u1, nl, u1.len() as int, c);
    assert(u2 =~= u1.subrange(nl, u1.len() as int));
    let vl = verb_len_from(u2, 0);
    lemma_verb_len_bound(u2, 0);
    let u3 = u2.skip(vl);
    lemma_subrange_absent(u2, vl, u2.len() as int, c);
    assert(u3 =~= u2.subrange(vl, u2.len() as int));
    lemma_trim_start_absent(u3, item_sep(), c);
    let v = trim_start_by(u3, item_sep());
    lemma_trim_start_absent(v, white(), c);
    lemma_trim_end_absent(trim_start_by(v, white()), white(), c);
    lemma_trim_end_absent(trim(v), item_tail(), c);
}

proof fn lemma_noun_len_bound(t: Seq<char>, k: usize)
    ensures
        0 <= noun_len_from(t, k) <= t.len(),
    decreases NOUN_ALTS - k,
{
    if k < NOUN_ALTS && !starts_with(t, noun_alt(k)) {
        lemma_noun_len_bound(t, (k + 1) as usize);
    }
}

proof fn lemma_verb_len_bound(t: Seq<char>, k: usize)
    ensures
        0 <= verb_len_from(t, k) <= t.len(),
    decreases VERB_ALTS - k,
{
    if k < VERB_ALTS && !starts_with(t, verb_alt(k)) {
        lemma_verb_len_bound(t, (k + 1) as usize);
    }
}

proof fn lemma_items_absent(s: Seq<char>, ms: Seq<int>, k: int, c: char)
    requires
        !s.contains(c),
        ms == list_markers(s),
        0 <= k <= ms.len(),
    ensures
        forall|i: int| 0 <= i < items_upto(s, ms, k).len() ==> !(#[trigger] items_upto(s, ms, k)[i]).contains(c),
    decreases k,
{
    if k > 0 {
        lemma_items_absent(s, ms, k - 1, c);
        lemma_markers_below(s, s.len() as int);
        let idx = k - 1;
        assert(is_marker(s, ms[idx]));
        let hi = if idx + 1 < ms.len() { ms[idx + 1] } else { s.len() as int };
        if idx + 1 < ms.len() {
            assert(ms[idx] + 2 <= ms[idx + 1]);
        }
        lemma_subrange_absent(s, ms[idx] + 2, hi, c);
        lemma_item_absent(segment(s, ms, idx), c);
        let prev = items_upto(s, ms, k - 1);
        let cur = items_upto(s, ms, k);
        assert forall|i: int| 0 <= i < cur.len() implies !(#[trigger] cur[i]).contains(c) by {
            if i < prev.len() {
                assert(cur[i] == prev[i]);
            } else {
                assert(cur[i] == list_item(segment(s, ms, idx)));
            }
        }
    }
}

proof fn lemma_decimal_absent(n: nat, c: char)
    requires
        is_cjk(c),
    ensures
        !decimal(n).contains(c),
    decreases n,
{
    assert forall|k: int| 0 <= k < 10 implies DIGITS@[k] != c by {
        assert(DIGITS@[k] == DIGITS[k]);
    }
    if n >= 10 {
        lemma_decimal_absent(n / 10, c);
        assert forall|j: int| 0 <= j < decimal(n).len() implies decimal(n)[j] != c by {
            if j < decimal(n / 10).len() {
                assert(decimal(n)[j] == decimal(n / 10)[j]);
            }
        }
    }
}

proof fn lemma_numbered_absent(items: Seq<Seq<char>>, k: int, c: char)
    requires
        is_cjk(c),
        0 <= k <= items.len(),
        forall|i: int| 0 <= i < items.len() ==> !(#[trigger] items[i]).contains(c),
    ensures
        !numbered_lines(items, k).contains(c),
    decreases k,
{
    if k > 0 {
        let i = k - 1;
        lemma_decimal_absent((i + 1) as nat, c);
        assert(!seq!['.', ' '].contains(c)) by {
            assert(seq!['.', ' '][0] != c && seq!['.', ' '][1] != c);
        }
        lemma_contains_concat(decimal((i + 1) as nat), seq!['.', ' '], c);
        lemma_contains_concat(decimal((i + 1) as nat) + seq!['.', ' '], items[i], c);
        if k > 1 {
            lemma_numbered_absent(items, k - 1, c);
            assert(!seq!['\n'].contains(c)) by {
                assert(seq!['\n'][0] != c);
            }
            lemma_contains_concat(numbered_lines(items, k - 1), seq!['\n'], c);
            lemma_contains_concat(numbered_lines(items, k - 1) + seq!['\n'], numbered_line(items, k - 1), c);
        }
    }
}

/// Numbering a list brings in no CJK character: every CJK character of the
/// result was already in the text.
pub proof fn law_lists_no_new_char(s: Seq<char>, c: char)
    requires
        is_cjk(c),
        !s.contains(c),
    ensures
        !spec_format_lists(s).contains(c),
{
    let ms = list_markers(s);
    if s.len() > 0 && ms.len() >= 2 && s[ms[0] + 1] == '一' {
        let items = items_upto(s, ms, ms.len() as int);
        if items.len() >= 2 {
            lemma_items_absent(s, ms, ms.len() as int, c);
            lemma_numbered_absent(items, items.len() as int, c);
            let body = numbered_lines(items, items.len() as int);
            lemma_markers_below(s, s.len() as int);
            assert(is_marker(s, ms[0]));
            lemma_subrange_absent(s, 0, ms[0], c);
            assert(s.take(ms[0]) =~= s.subrange(0, ms[0]));
            let h = s.take(ms[0]);
            lemma_trim_start_absent(h, white(), c);
            lemma_trim_end_absent(trim_start_by(h, white()), white(), c);
            lemma_trim_end_absent(trim(h), intro_tail(), c);
            let intro = list_intro(s, ms);
            assert(!seq!['：', '\n'].contains(c)) by {
                assert(seq!['：', '\n'][0] != c && seq!['：', '\n'][1] != c);
            }
            lemma_contains_concat(intro, seq!['：', '\n'], c);
            lemma_contains_concat(intro + seq!['：', '\n'], body, c);
        }
    }
}
} // verus!
