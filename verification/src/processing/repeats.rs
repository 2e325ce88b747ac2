//! Step 1: stutter collapsing of repeated characters.
use vstd::prelude::*;

use crate::chars::{chars_of, is_cjk, is_cjk_char, string_of};

verus! {

/// The characters whose doubling is a real reduplicated word (爸爸, 慢慢,
/// 謝謝, ...): a doubled run of one of them is kept as two.
pub const REDUP_CHARS: [char; 236] = [
    '爸', '妈', '媽', '爹', '哥', '姐', '弟', '妹', '爷', '爺', '奶', '公',
    '婆', '叔', '婶', '嬸', '伯', '姑', '舅', '姨', '宝', '寶', '乖', '囡',
    '妞', '看', '想', '试', '試', '走', '说', '說', '讲', '講', '聊', '玩',
    '等', '找', '问', '問', '摸', '抱', '亲', '親', '拍', '数', '數', '闻',
    '聞', '尝', '嚐', '写', '寫', '读', '讀', '算', '比', '量', '翻', '查',
    '学', '學', '练', '練', '唱', '跳', '笑', '猜', '瞧', '望', '听', '聽',
    '坐', '站', '歇', '动', '動', '转', '轉', '晃', '逛', '摇', '搖', '慢',
    '快', '刚', '剛', '常', '偏', '渐', '漸', '轻', '輕', '重', '默', '悄',
    '纷', '紛', '久', '早', '迟', '遲', '连', '連', '频', '頻', '屡', '屢',
    '苦', '深', '浅', '淺', '远', '遠', '近', '团', '團', '牢', '死', '紧',
    '緊', '松', '鬆', '稳', '穩', '偷', '暗', '明', '空', '满', '滿', '处',
    '處', '时', '時', '步', '层', '層', '点', '點', '滴', '一', '个', '個',
    '条', '條', '件', '种', '種', '样', '樣', '天', '年', '月', '日', '夜',
    '人', '家', '户', '戶', '村', '区', '區', '场', '場', '好', '多', '少',
    '大', '小', '长', '長', '短', '胖', '瘦', '圆', '圓', '扁', '红', '紅',
    '绿', '綠', '蓝', '藍', '黄', '黃', '黑', '白', '亮', '甜', '酸', '辣',
    '咸', '鹹', '香', '臭', '暖', '凉', '涼', '热', '熱', '冷', '软', '軟',
    '硬', '厚', '薄', '嫩', '脆', '高', '低', '矮', '谢', '謝', '拜', '嗯',
    '哈', '呵', '嘿', '嘻', '哼', '喵', '汪', '咚', '叮', '啦', '唉', '哎',
    '呀', '啊', '哇', '哦', '喔', '嗚', '噢', '咦',
];

pub open spec fn is_redup_char(c: char) -> bool {
    REDUP_CHARS@.contains(c)
}

/// Start of the maximal run of equal characters that holds position `i`.
pub open spec fn run_start(s: Seq<char>, i: int) -> int
    decreases i,
{
    if 0 < i < s.len() && s[i - 1] == s[i] {
        run_start(s, i - 1)
    } else {
        i
    }
}

/// End (exclusive) of the maximal run of equal characters that holds `i`.
pub open spec fn run_end(s: Seq<char>, i: int) -> int
    decreases s.len() - i,
{
    if 0 <= i && i + 1 < s.len() && s[i + 1] == s[i] {
        run_end(s, i + 1)
    } else {
        i + 1
    }
}

/// A run of one CJK character, at least two long, ends just before `e`.
pub open spec fn doubled_cjk_ends_at(s: Seq<char>, e: int) -> bool {
    2 <= e <= s.len() && s[e - 2] == s[e - 1] && is_cjk(s[e - 1])
}

/// A run of one CJK character, at least two long, starts at `b`.
pub open spec fn doubled_cjk_starts_at(s: Seq<char>, b: int) -> bool {
    0 <= b && b + 1 < s.len() && s[b] == s[b + 1] && is_cjk(s[b])
}

/// How many characters of the run holding `i` survive: a run of two or more
/// of one CJK character shrinks to one, or to two when the doubling is a
/// known word or the run stands next to another such run (AABB); every
/// other run stays whole.
pub open spec fn copies_kept(s: Seq<char>, i: int) -> int {
    let a = run_start(s, i);
    let b = run_end(s, i);
    if b - a >= 2 && is_cjk(s[i]) {
        if is_redup_char(s[i]) || doubled_cjk_ends_at(s, a) || doubled_cjk_starts_at(s, b) {
            2
        } else {
            1
        }
    } else {
        b - a
    }
}

pub open spec fn keeps_char(s: Seq<char>, i: int) -> bool {
    i - run_start(s, i) < copies_kept(s, i)
}

/// The surviving characters among the first `k`.
pub open spec fn collapse_repeats_prefix(s: Seq<char>, k: int) -> Seq<char>
    decreases k,
{
    if k <= 0 {
        Seq::empty()
    } else if keeps_char(s, k - 1) {
        collapse_repeats_prefix(s, k - 1).push(s[k - 1])
    } else {
        collapse_repeats_prefix(s, k - 1)
    }
}

pub open spec fn spec_collapse_repeats(s: Seq<char>) -> Seq<char> {
    collapse_repeats_prefix(s, s.len() as int)
}

pub proof fn lemma_run_start(s: Seq<char>, a: int, k: int)
    requires
        0 <= a <= k < s.len(),
        a == 0 || s[a - 1] != s[a],
        forall|t: int| a <= t <= k ==> s[t] == s[a],
    ensures
        run_start(s, k) == a,
    decreases k - a,
{
    if k > a {
        lemma_run_start(s, a, k - 1);
    }
}

pub proof fn lemma_run_end(s: Seq<char>, k: int, b: int)
    requires
        0 <= k < b <= s.len(),
        b == s.len() || s[b] != s[b - 1],
        forall|t: int| k <= t < b ==> s[t] == s[k],
    ensures
        run_end(s, k) == b,
    decreases b - k,
{
    if k + 1 < b {
        lemma_run_end(s, k + 1, b);
    }
}

fn is_redup(c: char) -> (b: bool)
    ensures
        b == is_redup_char(c),
{
    let mut i: usize = 0;
    while i < 236
        invariant
            i <= 236,
            forall|j: int| 0 <= j < i ==> REDUP_CHARS@[j] != c,
        decreases 236 - i,
    {
        if REDUP_CHARS[i] == c {
            return true;
        }
        i += 1;
    }
    false
}

/// Collapses stuttered characters: 我我我 becomes 我, 吃吃牛肉 becomes 吃牛肉,
/// while 慢慢, 謝謝 and AABB patterns such as 吃吃喝喝 stay.
pub fn collapse_repeats(text: &str) -> (res: String)
    ensures
        res@ == spec_collapse_repeats(text@),
{
    let v = chars_of(text);
    let n = v.len();
    let ghost s = v@;
    let mut out: Vec<char> = Vec::new();
    let mut i: usize = 0;
    while i < n
        invariant
            n == v.len(),
            s == v@,
            i <= n,
            i == 0 || i == n || s[i - 1] != s[i as int],
            out@ == collapse_repeats_prefix(s, i as int),
        decreases n - i,
    {
        let ch = v[i];
        let mut j: usize = i + 1;
        while j < n && v[j] == ch
            invariant
                i < j <= n,
                n == v.len(),
                ch == s[i as int],
                s == v@,
                forall|t: int| i <= t < j ==> s[t] == ch,
            decreases n - j,
        {
            j += 1;
        }
        let run = j - i;
        proof {
            lemma_run_start(s, i as int, i as int);
            lemma_run_end(s, i as int, j as int);
        }
        let copies: usize = if run >= 2 && is_cjk_char(ch) {
            let prev_dup = i >= 2 && v[i - 2] == v[i - 1] && is_cjk_char(v[i - 1]);
            let next_dup = n - j >= 2 && v[j] == v[j + 1] && is_cjk_char(v[j]);
            if is_redup(ch) || prev_dup || next_dup {
                2
            } else {
                1
            }
        } else {
            run
        };
        let mut k: usize = i;
        while k < j
            invariant
                i <= k <= j <= n,
                n == v.len(),
                s == v@,
                ch == s[i as int],
                i == 0 || s[i - 1] != s[i as int],
                j == n || s[j as int] != s[j - 1],
                forall|t: int| i <= t < j ==> s[t] == ch,
                copies as int == copies_kept(s, i as int),
                out@ == collapse_repeats_prefix(s, k as int),
            decreases j - k,
        {
            proof {
                lemma_run_start(s, i as int, k as int);
                lemma_run_end(s, k as int, j as int);
                lemma_run_start(s, i as int, i as int);
                lemma_run_end(s, i as int, j as int);
            }
            if k - i < copies {
                out.push(ch);
            }
            k += 1;
        }
        i = j;
    }
    string_of(&out)
}

pub proof fn lemma_run_bounds(s: Seq<char>, i: int)
    requires
        0 <= i < s.len(),
    ensures
        0 <= run_start(s, i) <= i,
        i < run_end(s, i) <= s.len(),
    decreases s.len() - i,
{
    lemma_run_start_le(s, i);
    if i + 1 < s.len() && s[i + 1] == s[i] {
        lemma_run_bounds(s, i + 1);
    }
}

pub proof fn lemma_run_start_le(s: Seq<char>, i: int)
    requires
        0 <= i < s.len(),
    ensures
        0 <= run_start(s, i) <= i,
    decreases i,
{
    if 0 < i && s[i - 1] == s[i] {
        lemma_run_start_le(s, i - 1);
    }
}

/// The surviving prefix of a run of copies of `c` that keeps `m` of them.
proof fn lemma_uniform_prefix(s: Seq<char>, c: char, m: int, k: int)
    requires
        1 <= s.len(),
        1 <= m,
        0 <= k <= s.len(),
        forall|i: int| 0 <= i < s.len() ==> s[i] == c,
        forall|i: int| 0 <= i < s.len() ==> #[trigger] copies_kept(s, i) == m,
    ensures
        collapse_repeats_prefix(s, k) == Seq::new(
            (if k < m { k } else { m }) as nat,
            |t: int| c,
        ),
    decreases k,
{
    if k > 0 {
        lemma_uniform_prefix(s, c, m, k - 1);
        lemma_run_start(s, 0, k - 1);
        assert(copies_kept(s, k - 1) == m);
        assert(collapse_repeats_prefix(s, k) =~= Seq::new(
            (if k < m { k } else { m }) as nat,
            |t: int| c,
        ));
    } else {
        assert(collapse_repeats_prefix(s, k) =~= Seq::new(0, |t: int| c));
    }
}

/// A run of two or more of one CJK character collapses to one character,
/// unless the doubled character is a known reduplicated word, which keeps
/// two (我我我 -> 我, 慢慢慢 -> 慢慢).
pub proof fn law_stutter_collapses(c: char, n: int)
    requires
        is_cjk(c),
        n >= 2,
    ensures
        !is_redup_char(c) ==> spec_collapse_repeats(Seq::new(n as nat, |t: int| c)) == seq![c],
        is_redup_char(c) ==> spec_collapse_repeats(Seq::new(n as nat, |t: int| c)) == seq![c, c],
{
    let s = Seq::new(n as nat, |t: int| c);
    let m: int = if is_redup_char(c) {
        2
    } else {
        1
    };
    assert forall|i: int| 0 <= i < n implies #[trigger] copies_kept(s, i) == m by {
        lemma_run_start(s, 0, i);
        lemma_run_end(s, i, n);
    }
    lemma_uniform_prefix(s, c, m, n);
    assert(Seq::new(1, |t: int| c) =~= seq![c]);
    assert(Seq::new(2, |t: int| c) =~= seq![c, c]);
}

/// Text without CJK characters is left as it is.
pub proof fn law_non_cjk_unchanged(s: Seq<char>)
    requires
        forall|i: int| 0 <= i < s.len() ==> !is_cjk(#[trigger] s[i]),
    ensures
        spec_collapse_repeats(s) == s,
{
    assert forall|k: int| 0 <= k <= s.len() implies collapse_repeats_prefix(s, k) == s.take(k) by {
        lemma_prefix_unchanged(s, k);
    }
    assert(s.take(s.len() as int) =~= s);
}

proof fn lemma_prefix_unchanged(s: Seq<char>, k: int)
    requires
        0 <= k <= s.len(),
        forall|i: int| 0 <= i < s.len() ==> !is_cjk(#[trigger] s[i]),
    ensures
        collapse_repeats_prefix(s, k) == s.take(k),
    decreases k,
{
    if k > 0 {
        lemma_prefix_unchanged(s, k - 1);
        lemma_run_bounds(s, k - 1);
        assert(!is_cjk(s[k - 1]));
        assert(keeps_char(s, k - 1));
        assert(s.take(k) =~= s.take(k - 1).push(s[k - 1]));
    } else {
        assert(s.take(0) =~= Seq::<char>::empty());
    }
}

/// Two different CJK characters, each doubled, stay doubled (AABB words
/// such as 吃吃喝喝).
pub proof fn law_aabb_kept(a: char, b: char)
    requires
        is_cjk(a),
        is_cjk(b),
        a != b,
    ensures
        spec_collapse_repeats(seq![a, a, b, b]) == seq![a, a, b, b],
{
    let s = seq![a, a, b, b];
    lemma_run_start(s, 0, 0);
    lemma_run_start(s, 0, 1);
    lemma_run_start(s, 2, 2);
    lemma_run_start(s, 2, 3);
    lemma_run_end(s, 0, 2);
    lemma_run_end(s, 1, 2);
    lemma_run_end(s, 2, 4);
    lemma_run_end(s, 3, 4);
    assert(doubled_cjk_starts_at(s, 2));
    assert(doubled_cjk_ends_at(s, 2));
    assert(keeps_char(s, 0) && keeps_char(s, 1) && keeps_char(s, 2) && keeps_char(s, 3));
    assert(collapse_repeats_prefix(s, 0) =~= Seq::<char>::empty());
    assert(collapse_repeats_prefix(s, 1) =~= seq![a]);
    assert(collapse_repeats_prefix(s, 2) =~= seq![a, a]);
    assert(collapse_repeats_prefix(s, 3) =~= seq![a, a, b]);
    assert(collapse_repeats_prefix(s, 4) =~= seq![a, a, b, b]);
}

// The run structure of a text, used to state what collapsing does run by run.

/// `n` copies of `c`.
pub open spec fn block(c: char, n: nat) -> Seq<char> {
    Seq::new(n, |i: int| c)
}

/// The text made of the runs `rs`, each a character and a length.
pub open spec fn expand(rs: Seq<(char, nat)>) -> Seq<char>
    decreases rs.len(),
{
    if rs.len() == 0 {
        Seq::empty()
    } else {
        expand(rs.drop_last()) + block(rs.last().0, rs.last().1)
    }
}

/// Runs are non-empty and neighbouring runs hold different characters.
pub open spec fn runs_wf(rs: Seq<(char, nat)>) -> bool {
    &&& forall|k: int| 0 <= k < rs.len() ==> #[trigger] rs[k].1 >= 1
    &&& forall|k: int| 0 < k < rs.len() ==> rs[k - 1].0 != #[trigger] rs[k].0
}

/// What collapsing leaves of run `k`, read off the runs.
pub open spec fn run_copies(rs: Seq<(char, nat)>, k: int) -> nat {
    let c = rs[k].0;
    let r = rs[k].1;
    if r >= 2 && is_cjk(c) {
        if is_redup_char(c) || (k > 0 && rs[k - 1].1 >= 2 && is_cjk(rs[k - 1].0)) || (k + 1
            < rs.len() && rs[k + 1].1 >= 2 && is_cjk(rs[k + 1].0)) {
            2
        } else {
            1
        }
    } else {
        r
    }
}

pub open spec fn collapsed_runs(rs: Seq<(char, nat)>) -> Seq<(char, nat)> {
    Seq::new(rs.len(), |k: int| (rs[k].0, run_copies(rs, k)))
}

/// The maximal runs of `s`, from the first to the last.
pub open spec fn runs_of(s: Seq<char>) -> Seq<(char, nat)>
    decreases s.len(),
{
    if s.len() == 0 {
        Seq::empty()
    } else {
        let a = run_start(s, s.len() - 1);
        proof {
            lemma_run_start_le(s, s.len() - 1);
        }
        runs_of(s.take(a)).push((s.last(), (s.len() - a) as nat))
    }
}

proof fn lemma_run_start_props(s: Seq<char>, i: int)
    requires
        0 <= i < s.len(),
    ensures
        0 <= run_start(s, i) <= i,
        forall|t: int| run_start(s, i) <= t <= i ==> s[t] == s[i],
        run_start(s, i) == 0 || s[run_start(s, i) - 1] != s[run_start(s, i)],
    decreases i,
{
    if 0 < i && s[i - 1] == s[i] {
        lemma_run_start_props(s, i - 1);
    }
}

proof fn lemma_runs_of(s: Seq<char>)
    ensures
        runs_wf(runs_of(s)),
        expand(runs_of(s)) == s,
        s.len() > 0 ==> runs_of(s).len() > 0 && runs_of(s).last().0 == s.last(),
    decreases s.len(),
{
    if s.len() > 0 {
        let n = s.len() as int;
        let a = run_start(s, n - 1);
        lemma_run_start_props(s, n - 1);
        let t = s.take(a);
        lemma_runs_of(t);
        let rs = runs_of(s);
        let c = s.last();
        assert(rs == runs_of(t).push((c, (n - a) as nat)));
        assert(rs.drop_last() =~= runs_of(t));
        assert(expand(rs) =~= s) by {
            assert(expand(rs) == t + block(c, (n - a) as nat));
        }
        assert forall|k: int| 0 < k < rs.len() implies rs[k - 1].0 != #[trigger] rs[k].0 by {
            if k == rs.len() - 1 {
                assert(a > 0);
                assert(rs[k - 1] == runs_of(t).last());
                assert(t.last() == s[a - 1]);
            } else {
                assert(rs[k] == runs_of(t)[k]);
                assert(rs[k - 1] == runs_of(t)[k - 1]);
            }
        }
        assert forall|k: int| 0 <= k < rs.len() implies #[trigger] rs[k].1 >= 1 by {
            if k < rs.len() - 1 {
                assert(rs[k] == runs_of(t)[k]);
            }
        }
    }
}

proof fn lemma_expand_concat(a: Seq<(char, nat)>, b: Seq<(char, nat)>)
    ensures
        expand(a + b) == expand(a) + expand(b),
    decreases b.len(),
{
    if b.len() == 0 {
        assert(a + b =~= a);
        assert(expand(a) + expand(b) =~= expand(a));
    } else {
        assert((a + b).drop_last() =~= a + b.drop_last());
        lemma_expand_concat(a, b.drop_last());
        assert((a + b).last() == b.last());
        assert(expand(a + b) =~= expand(a) + expand(b));
    }
}

/// Where run `k` starts.
pub open spec fn run_pos(rs: Seq<(char, nat)>, k: int) -> int {
    expand(rs.take(k)).len() as int
}

proof fn lemma_run_split(rs: Seq<(char, nat)>, k: int)
    requires
        0 <= k < rs.len(),
    ensures
        expand(rs) == expand(rs.take(k)) + block(rs[k].0, rs[k].1) + expand(rs.skip(k + 1)),
        run_pos(rs, k + 1) == run_pos(rs, k) + rs[k].1,
        expand(rs.take(k + 1)) == expand(rs.take(k)) + block(rs[k].0, rs[k].1),
{
    let one = seq![rs[k]];
    assert(rs =~= rs.take(k) + one + rs.skip(k + 1));
    assert(one.drop_last() =~= Seq::<(char, nat)>::empty());
    assert(expand(one.drop_last()) == Seq::<char>::empty());
    assert(one.last() == rs[k]);
    assert(expand(one) =~= Seq::<char>::empty() + block(rs[k].0, rs[k].1));
    assert(expand(one) =~= block(rs[k].0, rs[k].1));
    lemma_expand_concat(rs.take(k) + one, rs.skip(k + 1));
    lemma_expand_concat(rs.take(k), one);
    assert(rs.take(k + 1) =~= rs.take(k) + one);
}

proof fn lemma_run_at(rs: Seq<(char, nat)>, k: int, j: int)
    requires
        0 <= k < rs.len(),
        0 <= j < rs[k].1,
    ensures
        run_pos(rs, k) + j < expand(rs).len(),
        expand(rs)[run_pos(rs, k) + j] == rs[k].0,
{
    lemma_run_split(rs, k);
    let pre = expand(rs.take(k));
    let b = block(rs[k].0, rs[k].1);
    assert((pre + b + expand(rs.skip(k + 1)))[pre.len() + j] == b[j]);
}

proof fn lemma_run_pos_end(rs: Seq<(char, nat)>)
    ensures
        run_pos(rs, rs.len() as int) == expand(rs).len(),
{
    assert(rs.take(rs.len() as int) =~= rs);
}

proof fn lemma_run_pos_mono(rs: Seq<(char, nat)>, k: int, l: int)
    requires
        0 <= k <= l <= rs.len(),
    ensures
        run_pos(rs, k) <= run_pos(rs, l),
    decreases l - k,
{
    if k < l {
        lemma_run_split(rs, l - 1);
        lemma_run_pos_mono(rs, k, l - 1);
    }
}

/// Every position of run `k` sees run `k` as its maximal run, and keeps as
/// many copies as the run-level count says.
proof fn lemma_block_position(rs: Seq<(char, nat)>, k: int, j: int)
    requires
        runs_wf(rs),
        0 <= k < rs.len(),
        0 <= j < rs[k].1,
    ensures
        run_start(expand(rs), run_pos(rs, k) + j) == run_pos(rs, k),
        run_end(expand(rs), run_pos(rs, k) + j) == run_pos(rs, k) + rs[k].1,
        copies_kept(expand(rs), run_pos(rs, k) + j) == run_copies(rs, k),
        expand(rs)[run_pos(rs, k) + j] == rs[k].0,
{
    let s = expand(rs);
    let a = run_pos(rs, k);
    let r = rs[k].1 as int;
    let b = a + r;
    let c = rs[k].0;
    let p = a + j;
    lemma_run_split(rs, k);
    lemma_run_pos_end(rs);
    lemma_run_pos_mono(rs, k + 1, rs.len() as int);
    assert forall|t: int| a <= t <= p implies s[t] == s[a] by {
        lemma_run_at(rs, k, t - a);
        lemma_run_at(rs, k, 0);
    }
    assert forall|t: int| p <= t < b implies s[t] == s[p] by {
        lemma_run_at(rs, k, t - a);
        lemma_run_at(rs, k, j);
    }
    lemma_run_at(rs, k, 0);
    lemma_run_at(rs, k, j);
    lemma_run_at(rs, k, r - 1);
    if k > 0 {
        lemma_run_split(rs, k - 1);
        lemma_run_at(rs, k - 1, rs[k - 1].1 - 1);
        assert(s[a - 1] == rs[k - 1].0);
    }
    lemma_run_start(s, a, p);
    if k + 1 < rs.len() {
        lemma_run_split(rs, k + 1);
        lemma_run_at(rs, k + 1, 0);
        assert(s[b] == rs[k + 1].0);
    }
    lemma_run_end(s, p, b);
    // the run before
    if k > 0 {
        let r0 = rs[k - 1].1 as int;
        if r0 >= 2 {
            lemma_run_at(rs, k - 1, r0 - 2);
            assert(doubled_cjk_ends_at(s, a) == is_cjk(rs[k - 1].0));
        } else if k > 1 {
            lemma_run_split(rs, k - 2);
            lemma_run_at(rs, k - 2, rs[k - 2].1 - 1);
            assert(!doubled_cjk_ends_at(s, a));
        } else {
            assert(rs.take(0) =~= Seq::<(char, nat)>::empty());
            assert(a == 1);
            assert(!doubled_cjk_ends_at(s, a));
        }
    } else {
        assert(rs.take(0) =~= Seq::<(char, nat)>::empty());
        assert(!doubled_cjk_ends_at(s, a));
    }
    // the run after
    if k + 1 < rs.len() {
        let r1 = rs[k + 1].1 as int;
        lemma_run_split(rs, k + 1);
        lemma_run_pos_mono(rs, k + 2, rs.len() as int);
        if r1 >= 2 {
            lemma_run_at(rs, k + 1, 1);
            assert(doubled_cjk_starts_at(s, b) == is_cjk(rs[k + 1].0));
        } else if k + 2 < rs.len() {
            lemma_run_split(rs, k + 2);
            lemma_run_at(rs, k + 2, 0);
            assert(!doubled_cjk_starts_at(s, b));
        } else {
            assert(!doubled_cjk_starts_at(s, b));
        }
    } else {
        assert(!doubled_cjk_starts_at(s, b));
    }
}

proof fn lemma_collapse_within(rs: Seq<(char, nat)>, k: int, j: int)
    requires
        runs_wf(rs),
        0 <= k < rs.len(),
        0 <= j <= rs[k].1,
    ensures
        collapse_repeats_prefix(expand(rs), run_pos(rs, k) + j) == collapse_repeats_prefix(
            expand(rs),
            run_pos(rs, k),
        ) + block(rs[k].0, (if j < run_copies(rs, k) { j } else { run_copies(rs, k) as int }) as nat),
    decreases j,
{
    let s = expand(rs);
    let a = run_pos(rs, k);
    let m = run_copies(rs, k) as int;
    let c = rs[k].0;
    if j == 0 {
        assert(block(c, 0) =~= Seq::<char>::empty());
        assert(collapse_repeats_prefix(s, a) + block(c, 0) =~= collapse_repeats_prefix(s, a));
    } else {
        lemma_collapse_within(rs, k, j - 1);
        lemma_block_position(rs, k, j - 1);
        lemma_run_at(rs, k, j - 1);
        if j - 1 < m {
            assert(block(c, (j - 1) as nat).push(c) =~= block(c, j as nat));
        }
        assert(collapse_repeats_prefix(s, a + j) =~= collapse_repeats_prefix(s, a) + block(
            c,
            (if j < m { j } else { m }) as nat,
        ));
    }
}

proof fn lemma_collapse_blocks(rs: Seq<(char, nat)>, k: int)
    requires
        runs_wf(rs),
        0 <= k <= rs.len(),
    ensures
        collapse_repeats_prefix(expand(rs), run_pos(rs, k)) == expand(collapsed_runs(rs).take(k)),
    decreases k,
{
    let q = collapsed_runs(rs);
    if k == 0 {
        assert(rs.take(0) =~= Seq::<(char, nat)>::empty());
        assert(q.take(0) =~= Seq::<(char, nat)>::empty());
    } else {
        lemma_collapse_blocks(rs, k - 1);
        lemma_run_split(rs, k - 1);
        lemma_collapse_within(rs, k - 1, rs[k - 1].1 as int);
        let m = run_copies(rs, k - 1);
        assert(m <= rs[k - 1].1);
        assert(q.take(k).drop_last() =~= q.take(k - 1));
        assert(q.take(k).last() == (rs[k - 1].0, m));
    }
}

proof fn lemma_collapse_expand(rs: Seq<(char, nat)>)
    requires
        runs_wf(rs),
    ensures
        spec_collapse_repeats(expand(rs)) == expand(collapsed_runs(rs)),
{
    lemma_collapse_blocks(rs, rs.len() as int);
    lemma_run_pos_end(rs);
    assert(collapsed_runs(rs).take(rs.len() as int) =~= collapsed_runs(rs));
}

proof fn lemma_collapsed_runs_fixed(rs: Seq<(char, nat)>)
    requires
        runs_wf(rs),
    ensures
        runs_wf(collapsed_runs(rs)),
        collapsed_runs(collapsed_runs(rs)) == collapsed_runs(rs),
{
    let q = collapsed_runs(rs);
    assert forall|k: int| 0 <= k < q.len() implies #[trigger] q[k].1 >= 1 by {
        assert(rs[k].1 >= 1);
    }
    assert forall|k: int| 0 < k < q.len() implies q[k - 1].0 != #[trigger] q[k].0 by {
        assert(rs[k - 1].0 != rs[k].0);
    }
    assert forall|k: int| 0 <= k < q.len() implies run_copies(q, k) == #[trigger] q[k].1 by {
        let c = rs[k].0;
        if q[k].1 >= 2 && is_cjk(c) {
            assert(rs[k].1 >= 2);
            if !is_redup_char(c) {
                if k > 0 && rs[k - 1].1 >= 2 && is_cjk(rs[k - 1].0) {
                    assert(q[k - 1].1 == 2);
                } else {
                    assert(k + 1 < rs.len() && rs[k + 1].1 >= 2 && is_cjk(rs[k + 1].0));
                    assert(q[k + 1].1 == 2);
                }
            }
        }
    }
    assert(collapsed_runs(q) =~= q);
}

/// Collapsing twice is collapsing once: what survives is already free of
/// stutters.
pub proof fn law_collapse_repeats_idempotent(s: Seq<char>)
    ensures
        spec_collapse_repeats(spec_collapse_repeats(s)) == spec_collapse_repeats(s),
{
    let rs = runs_of(s);
    lemma_runs_of(s);
    lemma_collapse_expand(rs);
    lemma_collapsed_runs_fixed(rs);
    lemma_collapse_expand(collapsed_runs(rs));
}

} // verus!
