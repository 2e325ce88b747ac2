//! Step 7: English-dominant lines get half-width punctuation, capitalised
//! sentences and a capital `I`; mixed Chinese-English lines stay as they are.
use vstd::prelude::*;

use crate::chars::{
    chars_of, is_cjk, is_cjk_char, is_white, is_white_char, lemma_contains_concat,
    lemma_replace_all_no_new_char, push_all, replace_all, replace_all_vec, skip_white, slice_of,
    string_of, trim, trim_end_by, trim_start_by, trim_vec, white, lemma_trim_start_absent,
    lemma_trim_end_absent, lemma_subrange_absent,
};

verus! {

/// What compiling `pattern` with `regex::Regex::new` and then calling
/// `replace_all(text, rep)` on it gives: `None` when the pattern does not
/// compile.
pub uninterp spec fn regex_replace_all_result(
    pattern: Seq<char>,
    text: Seq<char>,
    rep: Seq<char>,
) -> Option<Seq<char>>;

/// Calls `regex::Regex::new(pattern)` and, when it compiles,
/// `Regex::replace_all(text, rep)`. The result is the named function of the
/// three arguments; where the word boundaries fall is left to the Unicode
/// tables inside the regex crate and is not stated. For the pattern `\bi\b`
/// with the replacement `I` (which holds no `$`, so it is taken literally),
/// every match is a single `i`, so the text keeps its length and each of its
/// characters either stays or is an `i` that became `I`.
#[verifier::external_body]
fn regex_replace_all(pattern: &str, text: &str, rep: &str) -> (r: Option<String>)
    ensures
        r is None <==> regex_replace_all_result(pattern@, text@, rep@) is None,
        r matches Some(out) ==> regex_replace_all_result(pattern@, text@, rep@) == Some(out@),
        pattern@ == lone_i_pattern() && rep@ == seq!['I'] ==> (r matches Some(out)
            ==> only_lone_i_capitalised(text@, out@)),
{
    match regex::Regex::new(pattern) {
        Ok(re) => Some(re.replace_all(text, rep).into_owned()),
        Err(_) => None,
    }
}

/// `out` is `text` with some of its `i` written `I`.
pub open spec fn only_lone_i_capitalised(text: Seq<char>, out: Seq<char>) -> bool {
    &&& out.len() == text.len()
    &&& forall|k: int|
        0 <= k < text.len() ==> out[k] == text[k] || (text[k] == 'i' && out[k] == 'I')
}

/// Filler syllables that may sit in an English line (and become spaces there).
pub const EN_FILLERS: [char; 10] = ['啊', '嗯', '呃', '哦', '喔', '欸', '唉', '誒', '呀', '嘛'];

pub open spec fn is_en_filler(c: char) -> bool {
    EN_FILLERS@.contains(c)
}

pub open spec fn en_filler() -> spec_fn(char) -> bool {
    |c: char| is_en_filler(c)
}

pub open spec fn is_ascii_alpha(c: char) -> bool {
    ('a' <= c && c <= 'z') || ('A' <= c && c <= 'Z')
}

pub open spec fn count_cjk(s: Seq<char>) -> nat
    decreases s.len(),
{
    if s.len() == 0 {
        0
    } else {
        count_cjk(s.drop_last()) + if is_cjk(s.last()) {
            1nat
        } else {
            0nat
        }
    }
}

pub open spec fn count_ascii_alpha(s: Seq<char>) -> nat
    decreases s.len(),
{
    if s.len() == 0 {
        0
    } else {
        count_ascii_alpha(s.drop_last()) + if is_ascii_alpha(s.last()) {
            1nat
        } else {
            0nat
        }
    }
}

/// A line is English-dominant when it has ASCII letters and no CJK, or at
/// least 12 ASCII letters, at most one CJK character per 15 letters (plus
/// one), and only filler syllables among its CJK characters.
pub open spec fn is_english_dominant(s: Seq<char>) -> bool {
    let cjk = count_cjk(s);
    let letters = count_ascii_alpha(s);
    if s.len() == 0 {
        false
    } else if cjk == 0 {
        letters > 0
    } else {
        &&& letters >= 12
        &&& cjk <= 1 + letters / 15
        &&& forall|i: int| 0 <= i < s.len() && is_cjk(s[i]) ==> is_en_filler(#[trigger] s[i])
    }
}

pub proof fn lemma_trim_start_shrinks(s: Seq<char>, p: spec_fn(char) -> bool)
    ensures
        trim_start_by(s, p).len() <= s.len(),
        s.len() > 0 && p(s[0]) ==> trim_start_by(s, p).len() < s.len(),
    decreases s.len(),
{
    if s.len() > 0 && p(s[0]) {
        lemma_trim_start_shrinks(s.drop_first(), p);
    }
}

/// Each run of filler syllables becomes one space.
pub open spec fn fillers_spaced(s: Seq<char>) -> Seq<char>
    decreases s.len(),
{
    if s.len() == 0 {
        s
    } else if is_en_filler(s[0]) {
        proof {
            lemma_trim_start_shrinks(s, en_filler());
        }
        seq![' '] + fillers_spaced(trim_start_by(s, en_filler()))
    } else {
        seq![s[0]] + fillers_spaced(s.drop_first())
    }
}

/// Full-width punctuation becomes ASCII punctuation and a space.
pub open spec fn half_width_punct(s: Seq<char>) -> Seq<char> {
    let s1 = replace_all(s, seq!['，'], seq![',', ' ']);
    let s2 = replace_all(s1, seq!['。'], seq!['.', ' ']);
    let s3 = replace_all(s2, seq!['？'], seq!['?', ' ']);
    let s4 = replace_all(s3, seq!['！'], seq!['!', ' ']);
    let s5 = replace_all(s4, seq!['：'], seq![':', ' ']);
    let s6 = replace_all(s5, seq!['；'], seq![';', ' ']);
    replace_all(s6, seq!['、'], seq![',', ' '])
}

pub open spec fn is_ascii_punct(c: char) -> bool {
    c == ',' || c == '.' || c == '?' || c == '!' || c == ':' || c == ';'
}

/// White space right before `, . ? ! : ;` is removed.
pub open spec fn space_before_punct_dropped(s: Seq<char>) -> Seq<char>
    decreases s.len(),
{
    if s.len() == 0 {
        s
    } else if is_white(s[0]) && trim_start_by(s, white()).len() > 0 && is_ascii_punct(
        trim_start_by(s, white())[0],
    ) {
        proof {
            lemma_trim_start_shrinks(s, white());
        }
        space_before_punct_dropped(trim_start_by(s, white()))
    } else {
        seq![s[0]] + space_before_punct_dropped(s.drop_first())
    }
}

/// Each run of two or more white-space characters becomes one space.
pub open spec fn spaces_squeezed(s: Seq<char>) -> Seq<char>
    decreases s.len(),
{
    if s.len() == 0 {
        s
    } else if s.len() >= 2 && is_white(s[0]) && is_white(s[1]) {
        proof {
            lemma_trim_start_shrinks(s, white());
        }
        seq![' '] + spaces_squeezed(trim_start_by(s, white()))
    } else {
        seq![s[0]] + spaces_squeezed(s.drop_first())
    }
}

pub open spec fn is_ascii_lower(c: char) -> bool {
    'a' <= c && c <= 'z'
}

pub const UPPER: [char; 26] = [
    'A', 'B', 'C', 'D', 'E', 'F', 'G', 'H', 'I', 'J', 'K', 'L', 'M', 'N', 'O', 'P', 'Q', 'R',
    'S', 'T', 'U', 'V', 'W', 'X', 'Y', 'Z',
];

pub open spec fn upper(c: char) -> char {
    UPPER@[(c as u32 - 'a' as u32) as int]
}

pub open spec fn is_sentence_end(c: char) -> bool {
    c == '.' || c == '?' || c == '!'
}

/// A lower-case ASCII letter starts a sentence when it opens the line or
/// follows `. ? !` and at least one white-space character.
pub open spec fn starts_sentence(s: Seq<char>, j: int) -> bool {
    ||| j == 0
    ||| j > 0 && is_white(s[j - 1]) && trim_end_by(s.take(j), white()).len() > 0
        && is_sentence_end(trim_end_by(s.take(j), white()).last())
}

pub open spec fn sentences_capitalised(s: Seq<char>) -> Seq<char> {
    Seq::new(
        s.len(),
        |j: int|
            if is_ascii_lower(s[j]) && starts_sentence(s, j) {
                upper(s[j])
            } else {
                s[j]
            },
    )
}

/// The regular expression `\bi\b`.
pub open spec fn lone_i_pattern() -> Seq<char> {
    seq!['\\', 'b', 'i', '\\', 'b']
}

/// An English-dominant line before its lone `i` becomes `I`.
pub open spec fn english_line_tidied(l: Seq<char>) -> Seq<char> {
    sentences_capitalised(
        trim(spaces_squeezed(space_before_punct_dropped(half_width_punct(fillers_spaced(l))))),
    )
}

pub open spec fn localize_line(l: Seq<char>) -> Seq<char> {
    if l.len() == 0 || !is_english_dominant(l) {
        l
    } else {
        let t = english_line_tidied(l);
        match regex_replace_all_result(lone_i_pattern(), t, seq!['I']) {
            Some(r) => r,
            None => t,
        }
    }
}

/// Index of the first line break at or after `i`, or the length.
pub open spec fn next_newline(s: Seq<char>, i: int) -> int
    decreases s.len() - i,
{
    if i < 0 || i >= s.len() {
        s.len() as int
    } else if s[i] == '\n' {
        i
    } else {
        next_newline(s, i + 1)
    }
}

pub proof fn lemma_next_newline(s: Seq<char>, i: int)
    requires
        0 <= i <= s.len(),
    ensures
        i <= next_newline(s, i) <= s.len(),
        next_newline(s, i) < s.len() ==> s[next_newline(s, i)] == '\n',
        forall|k: int| i <= k < next_newline(s, i) ==> s[k] != '\n',
    decreases s.len() - i,
{
    if i < s.len() && s[i] != '\n' {
        lemma_next_newline(s, i + 1);
    }
}

/// The text split at line breaks, each line localised, joined again.
pub open spec fn localize_text(s: Seq<char>) -> Seq<char>
    decreases s.len(),
{
    let k = next_newline(s, 0);
    if k >= s.len() {
        localize_line(s)
    } else {
        proof {
            lemma_next_newline(s, 0);
        }
        localize_line(s.take(k)) + seq!['\n'] + localize_text(s.skip(k + 1))
    }
}

pub open spec fn spec_localize_english_punct(s: Seq<char>) -> Seq<char> {
    if s.len() == 0 {
        s
    } else {
        localize_text(s)
    }
}

fn is_en_filler_char(c: char) -> (b: bool)
    ensures
        b == is_en_filler(c),
{
    let mut i: usize = 0;
    while i < 10
        invariant
            i <= 10,
            forall|j: int| 0 <= j < i ==> EN_FILLERS@[j] != c,
        decreases 10 - i,
    {
        if EN_FILLERS[i] == c {
            return true;
        }
        i += 1;
    }
    false
}

fn is_ascii_alpha_char(c: char) -> (b: bool)
    ensures
        b == is_ascii_alpha(c),
{
    (c >= 'a' && c <= 'z') || (c >= 'A' && c <= 'Z')
}

fn english_dominant(v: &Vec<char>) -> (b: bool)
    ensures
        b == is_english_dominant(v@),
{
    if v.len() == 0 {
        return false;
    }
    let mut cjk: usize = 0;
    let mut letters: usize = 0;
    let mut all_fillers = true;
    let mut i: usize = 0;
    while i < v.len()
        invariant
            i <= v.len(),
            cjk == count_cjk(v@.take(i as int)),
            letters == count_ascii_alpha(v@.take(i as int)),
            cjk <= i,
            letters <= i,
            all_fillers <==> forall|k: int| 0 <= k < i && is_cjk(v@[k]) ==> is_en_filler(#[trigger] v@[k]),
        decreases v.len() - i,
    {
        assert(v@.take(i + 1).drop_last() =~= v@.take(i as int));
        let c = v[i];
        if is_cjk_char(c) {
            cjk += 1;
            if !is_en_filler_char(c) {
                all_fillers = false;
            }
        }
        if is_ascii_alpha_char(c) {
            letters += 1;
        }
        i += 1;
    }
    assert(v@.take(v.len() as int) =~= v@);
    if cjk == 0 {
        letters > 0
    } else {
        letters >= 12 && cjk <= 1 + letters / 15 && all_fillers
    }
}

fn space_fillers(v: &Vec<char>) -> (r: Vec<char>)
    ensures
        r@ == fillers_spaced(v@),
{
    let n = v.len();
    let mut out: Vec<char> = Vec::new();
    let mut i: usize = 0;
    assert(v@.skip(0) =~= v@);
    while i < n
        invariant
            n == v.len(),
            i <= n,
            out@ + fillers_spaced(v@.skip(i as int)) == fillers_spaced(v@),
        decreases n - i,
    {
        let ghost t = v@.skip(i as int);
        if is_en_filler_char(v[i]) {
            let mut j: usize = i;
            assert(t.skip(0) =~= t);
            while j < n && is_en_filler_char(v[j])
                invariant
                    i <= j <= n,
                    n == v.len(),
                    t == v@.skip(i as int),
                    trim_start_by(t, en_filler()) == trim_start_by(v@.skip(j as int), en_filler()),
                decreases n - j,
            {
                assert(v@.skip(j as int).drop_first() =~= v@.skip(j + 1));
                j += 1;
            }
            out.push(' ');
            i = j;
        } else {
            assert(t.drop_first() =~= v@.skip(i + 1));
            out.push(v[i]);
            i += 1;
        }
    }
    assert(v@.skip(n as int) =~= Seq::<char>::empty());
    out
}

fn half_width(v: &Vec<char>) -> (r: Vec<char>)
    ensures
        r@ == half_width_punct(v@),
{
    let p1 = vec!['，'];
    let r1 = vec![',', ' '];
    let p2 = vec!['。'];
    let r2 = vec!['.', ' '];
    let p3 = vec!['？'];
    let r3 = vec!['?', ' '];
    let p4 = vec!['！'];
    let r4 = vec!['!', ' '];
    let p5 = vec!['：'];
    let r5 = vec![':', ' '];
    let p6 = vec!['；'];
    let r6 = vec![';', ' '];
    let p7 = vec!['、'];
    let r7 = vec![',', ' '];
    assert(p1@ == seq!['，'] && r1@ == seq![',', ' ']);
    assert(p2@ == seq!['。'] && r2@ == seq!['.', ' ']);
    assert(p3@ == seq!['？'] && r3@ == seq!['?', ' ']);
    assert(p4@ == seq!['！'] && r4@ == seq!['!', ' ']);
    assert(p5@ == seq!['：'] && r5@ == seq![':', ' ']);
    assert(p6@ == seq!['；'] && r6@ == seq![';', ' ']);
    assert(p7@ == seq!['、'] && r7@ == seq![',', ' ']);
    let s = replace_all_vec(v, &p1, &r1);
    let s = replace_all_vec(&s, &p2, &r2);
    let s = replace_all_vec(&s, &p3, &r3);
    let s = replace_all_vec(&s, &p4, &r4);
    let s = replace_all_vec(&s, &p5, &r5);
    let s = replace_all_vec(&s, &p6, &r6);
    replace_all_vec(&s, &p7, &r7)
}

fn is_ascii_punct_char(c: char) -> (b: bool)
    ensures
        b == is_ascii_punct(c),
{
    c == ',' || c == '.' || c == '?' || c == '!' || c == ':' || c == ';'
}

fn drop_space_before_punct(v: &Vec<char>) -> (r: Vec<char>)
    ensures
        r@ == space_before_punct_dropped(v@),
{
    let n = v.len();
    let mut out: Vec<char> = Vec::new();
    let mut i: usize = 0;
    assert(v@.skip(0) =~= v@);
    while i < n
        invariant
            n == v.len(),
            i <= n,
            out@ + space_before_punct_dropped(v@.skip(i as int)) == space_before_punct_dropped(v@),
        decreases n - i,
    {
        let ghost t = v@.skip(i as int);
        assert(t =~= v@.subrange(i as int, n as int));
        assert(t.drop_first() =~= v@.skip(i + 1));
        if is_white_char(v[i]) {
            let j = skip_white(v, i, n);
            assert(v@.subrange(j as int, n as int) =~= v@.skip(j as int));
            if j < n && is_ascii_punct_char(v[j]) {
                i = j;
            } else {
                out.push(v[i]);
                i += 1;
            }
        } else {
            out.push(v[i]);
            i += 1;
        }
    }
    assert(v@.skip(n as int) =~= Seq::<char>::empty());
    out
}

fn squeeze_spaces(v: &Vec<char>) -> (r: Vec<char>)
    ensures
        r@ == spaces_squeezed(v@),
{
    let n = v.len();
    let mut out: Vec<char> = Vec::new();
    let mut i: usize = 0;
    assert(v@.skip(0) =~= v@);
    while i < n
        invariant
            n == v.len(),
            i <= n,
            out@ + spaces_squeezed(v@.skip(i as int)) == spaces_squeezed(v@),
        decreases n - i,
    {
        let ghost t = v@.skip(i as int);
        assert(t =~= v@.subrange(i as int, n as int));
        assert(t.drop_first() =~= v@.skip(i + 1));
        if n - i >= 2 && is_white_char(v[i]) && is_white_char(v[i + 1]) {
            let j = skip_white(v, i, n);
            assert(v@.subrange(j as int, n as int) =~= v@.skip(j as int));
            out.push(' ');
            i = j;
        } else {
            out.push(v[i]);
            i += 1;
        }
    }
    assert(v@.skip(n as int) =~= Seq::<char>::empty());
    out
}

fn capitalise_sentences(v: &Vec<char>) -> (r: Vec<char>)
    ensures
        r@ == sentences_capitalised(v@),
{
    let n = v.len();
    let mut out: Vec<char> = Vec::new();
    let mut j: usize = 0;
    while j < n
        invariant
            n == v.len(),
            j <= n,
            out@ == sentences_capitalised(v@).take(j as int),
        decreases n - j,
    {
        let c = v[j];
        let mut starts = j == 0;
        if j > 0 && is_white_char(v[j - 1]) {
            assert(v@.subrange(0, j as int) =~= v@.take(j as int));
            let e = crate::chars::skip_white_back(v, 0, j);
            if e > 0 {
                let d = v[e - 1];
                assert(v@.subrange(0, e as int).last() == d);
                starts = d == '.' || d == '?' || d == '!';
            }
        }
        if c >= 'a' && c <= 'z' && starts {
            let k = (c as u32 - 'a' as u32) as usize;
            out.push(UPPER[k]);
        } else {
            out.push(c);
        }
        j += 1;
        assert(out@ =~= sentences_capitalised(v@).take(j as int));
    }
    assert(out@ =~= sentences_capitalised(v@));
    out
}

fn tidy_english_line(l: &Vec<char>) -> (r: Vec<char>)
    ensures
        r@ == english_line_tidied(l@),
{
    let s = space_fillers(l);
    let s = half_width(&s);
    let s = drop_space_before_punct(&s);
    let s = squeeze_spaces(&s);
    let s = trim_vec(&s);
    capitalise_sentences(&s)
}

fn localize_line_vec(l: &Vec<char>) -> (r: Vec<char>)
    ensures
        r@ == localize_line(l@),
        !l@.contains('\n') ==> !r@.contains('\n'),
        is_english_dominant(l@) ==> only_lone_i_capitalised(english_line_tidied(l@), r@),
{
    if l.len() == 0 || !english_dominant(l) {
        let r = slice_of(l, 0, l.len());
        assert(r@ =~= l@);
        return r;
    }
    let t = tidy_english_line(l);
    proof {
        if !l@.contains('\n') {
            lemma_tidied_absent(l@, '\n');
        }
    }
    let pv = vec!['\\', 'b', 'i', '\\', 'b'];
    let rv = vec!['I'];
    assert(pv@ == lone_i_pattern() && rv@ == seq!['I']);
    let pattern = string_of(&pv);
    let rep = string_of(&rv);
    let text = string_of(&t);
    match regex_replace_all(pattern.as_str(), text.as_str(), rep.as_str()) {
        Some(out) => {
            let r = chars_of(out.as_str());
            proof {
                if !l@.contains('\n') {
                    assert forall|k: int| 0 <= k < r@.len() implies r@[k] != '\n' by {
                        assert(!t@.contains('\n'));
                        if r@[k] != t@[k] {
                            assert(r@[k] == 'I');
                        } else {
                            assert(t@[k] != '\n');
                        }
                    }
                }
            }
            r
        },
        None => {
            assert(only_lone_i_capitalised(t@, t@));
            t
        },
    }
}

/// Localises punctuation line by line: an English-dominant line gets
/// half-width punctuation with single spacing, capitalised sentences and
/// `I` for a lone `i`; other lines are left as they are. The result has
/// exactly as many lines as the text, each the localised line of the text;
/// an English-dominant line comes out as its tidied form, where at most some
/// `i` have become `I`.
pub fn localize_english_punct(text: &str) -> (res: String)
    ensures
        res@ == spec_localize_english_punct(text@),
        lines_of(res@) == localized_lines(text@),
        forall|k: int|
            0 <= k < lines_of(text@).len() && !is_english_dominant(#[trigger] lines_of(text@)[k])
                ==> lines_of(res@)[k] == lines_of(text@)[k],
        forall|k: int|
            0 <= k < lines_of(text@).len() && is_english_dominant(#[trigger] lines_of(text@)[k])
                ==> only_lone_i_capitalised(
                english_line_tidied(lines_of(text@)[k]),
                lines_of(res@)[k],
            ),
        forall|c: char| is_cjk(c) && !text@.contains(c) ==> !(#[trigger] res@.contains(c)),
{
    let v = chars_of(text);
    let n = v.len();
    if n == 0 {
        proof {
            let e = Seq::<char>::empty();
            assert(lines_of(e) =~= seq![e]);
            assert(localized_lines(e) =~= seq![e]);
        }
        return String::new();
    }
    let ghost s = v@;
    let ghost mut done: Seq<Seq<char>> = Seq::empty();
    let mut out: Vec<char> = Vec::new();
    let mut i: usize = 0;
    assert(s.skip(0) =~= s);
    assert(lines_of(s) =~= done + lines_of(s.skip(0)));
    loop
        invariant_except_break
            out@ + localize_text(s.skip(i as int)) == localize_text(s),
            lines_of(s) == done + lines_of(s.skip(i as int)),
        invariant
            n == v.len(),
            s == v@,
            i <= n,
            forall|m: int| 0 <= m < done.len() ==> !localize_line(#[trigger] done[m]).contains('\n'),
            forall|m: int|
                0 <= m < done.len() && is_english_dominant(#[trigger] done[m])
                    ==> only_lone_i_capitalised(english_line_tidied(done[m]), localize_line(done[m])),
        ensures
            out@ == localize_text(s),
            lines_of(s).len() == done.len(),
            forall|m: int| 0 <= m < lines_of(s).len() ==> lines_of(s)[m] == done[m],
        decreases n - i,
    {
        let ghost t = s.skip(i as int);
        let mut k: usize = i;
        while k < n && v[k] != '\n'
            invariant
                i <= k <= n,
                n == v.len(),
                s == v@,
                t == s.skip(i as int),
                next_newline(t, 0) == next_newline(t, k - i),
                forall|q: int| i <= q < k ==> s[q] != '\n',
            decreases n - k,
        {
            k += 1;
        }
        let line = slice_of(&v, i, k);
        assert forall|q: int| 0 <= q < line@.len() implies line@[q] != '\n' by {
            assert(line@[q] == s[i + q]);
        }
        let done_line = localize_line_vec(&line);
        push_all(&mut out, &done_line);
        proof {
            lemma_next_newline(t, 0);
        }
        if k == n {
            assert(line@ =~= t);
            proof {
                assert(lines_of(t) == seq![t]);
                done = done.push(t);
                assert(lines_of(s) =~= done);
            }
            break;
        }
        assert(line@ =~= t.take(k - i));
        assert(t.skip(k - i + 1) =~= s.skip(k + 1));
        proof {
            assert(lines_of(t) == seq![t.take(k - i)] + lines_of(s.skip(k + 1)));
            let old_done = done;
            done = done.push(t.take(k - i));
            assert(old_done + lines_of(t) =~= done + lines_of(s.skip(k + 1)));
        }
        out.push('\n');
        i = k + 1;
    }
    proof {
        let xs = lines_of(s);
        let ys = localized_lines(s);
        lemma_localize_text_lines(s);
        lemma_lines_nonempty(s);
        assert forall|m: int| 0 <= m < ys.len() implies !(#[trigger] ys[m]).contains('\n') by {
            assert(ys[m] == localize_line(xs[m]));
            assert(xs[m] == done[m]);
        }
        lemma_lines_of_join(ys);
        assert forall|m: int|
            0 <= m < xs.len() && is_english_dominant(#[trigger] xs[m]) implies only_lone_i_capitalised(
            english_line_tidied(xs[m]),
            ys[m],
        ) by {
            assert(ys[m] == localize_line(xs[m]));
            assert(xs[m] == done[m]);
        }
    }
    let res = string_of(&out);
    proof {
        assert forall|c: char| is_cjk(c) && !text@.contains(c) implies !(#[trigger] res@.contains(
            c,
        )) by {
            lemma_localized_absent(text@, res@, c);
        }
    }
    res
}

/// No line holds a character that the text does not hold.
proof fn lemma_lines_absent(x: Seq<char>, c: char)
    requires
        !x.contains(c),
    ensures
        forall|k: int| 0 <= k < lines_of(x).len() ==> !(#[trigger] lines_of(x)[k]).contains(c),
    decreases x.len(),
{
    let k0 = next_newline(x, 0);
    if k0 < x.len() {
        lemma_next_newline(x, 0);
        let rest = x.skip(k0 + 1);
        lemma_subrange_absent(x, k0 + 1, x.len() as int, c);
        assert(rest =~= x.subrange(k0 + 1, x.len() as int));
        lemma_lines_absent(rest, c);
        lemma_subrange_absent(x, 0, k0, c);
        assert(x.take(k0) =~= x.subrange(0, k0));
        let ls = lines_of(x);
        assert forall|k: int| 0 <= k < ls.len() implies !(#[trigger] ls[k]).contains(c) by {
            if k > 0 {
                assert(ls[k] == lines_of(rest)[k - 1]);
            }
        }
    }
}

/// A character other than a line break that no line holds is not in the
/// text.
proof fn lemma_absent_from_lines(y: Seq<char>, c: char)
    requires
        c != '\n',
        forall|k: int| 0 <= k < lines_of(y).len() ==> !(#[trigger] lines_of(y)[k]).contains(c),
    ensures
        !y.contains(c),
    decreases y.len(),
{
    let k0 = next_newline(y, 0);
    lemma_lines_nonempty(y);
    if k0 >= y.len() {
        assert(lines_of(y)[0] == y);
    } else {
        lemma_next_newline(y, 0);
        let rest = y.skip(k0 + 1);
        let ls = lines_of(y);
        assert forall|k: int| 0 <= k < lines_of(rest).len() implies !(
        #[trigger] lines_of(rest)[k]).contains(c) by {
            assert(ls[k + 1] == lines_of(rest)[k]);
        }
        lemma_absent_from_lines(rest, c);
        assert(ls[0] == y.take(k0));
        assert(y =~= y.take(k0) + seq!['\n'] + rest);
        assert(!seq!['\n'].contains(c)) by {
            assert(seq!['\n'][0] != c);
        }
        lemma_contains_concat(y.take(k0), seq!['\n'], c);
        lemma_contains_concat(y.take(k0) + seq!['\n'], rest, c);
    }
}

proof fn lemma_localized_absent(text: Seq<char>, res: Seq<char>, c: char)
    requires
        is_cjk(c),
        !text.contains(c),
        lines_of(res) == localized_lines(text),
        forall|k: int|
            0 <= k < lines_of(text).len() && !is_english_dominant(#[trigger] lines_of(text)[k])
                ==> lines_of(res)[k] == lines_of(text)[k],
        forall|k: int|
            0 <= k < lines_of(text).len() && is_english_dominant(#[trigger] lines_of(text)[k])
                ==> only_lone_i_capitalised(english_line_tidied(lines_of(text)[k]), lines_of(res)[k]),
    ensures
        !res.contains(c),
{
    let xs = lines_of(text);
    let ys = lines_of(res);
    lemma_lines_absent(text, c);
    assert(ys.len() == xs.len());
    assert forall|k: int| 0 <= k < ys.len() implies !(#[trigger] ys[k]).contains(c) by {
        assert(!xs[k].contains(c));
        if is_english_dominant(xs[k]) {
            let t = english_line_tidied(xs[k]);
            lemma_tidied_absent(xs[k], c);
            assert(only_lone_i_capitalised(t, ys[k]));
            assert forall|j: int| 0 <= j < ys[k].len() implies ys[k][j] != c by {
                assert(t[j] != c);
            }
        }
    }
    lemma_absent_from_lines(res, c);
}

proof fn lemma_no_letters_count(t: Seq<char>)
    requires
        forall|i: int| 0 <= i < t.len() ==> !is_ascii_alpha(#[trigger] t[i]),
    ensures
        count_ascii_alpha(t) == 0,
    decreases t.len(),
{
    if t.len() > 0 {
        assert forall|i: int| 0 <= i < t.drop_last().len() implies !is_ascii_alpha(
            #[trigger] t.drop_last()[i],
        ) by {
            assert(t.drop_last()[i] == t[i]);
        }
        lemma_no_letters_count(t.drop_last());
        assert(!is_ascii_alpha(t.last()));
    }
}

proof fn lemma_localize_text_no_letters(s: Seq<char>)
    requires
        forall|i: int| 0 <= i < s.len() ==> !is_ascii_alpha(#[trigger] s[i]),
    ensures
        localize_text(s) == s,
    decreases s.len(),
{
    lemma_next_newline(s, 0);
    let k = next_newline(s, 0);
    if k >= s.len() {
        lemma_no_letters_count(s);
    } else {
        let head = s.take(k);
        let tail = s.skip(k + 1);
        assert forall|i: int| 0 <= i < head.len() implies !is_ascii_alpha(#[trigger] head[i]) by {
            assert(head[i] == s[i]);
        }
        assert forall|i: int| 0 <= i < tail.len() implies !is_ascii_alpha(#[trigger] tail[i]) by {
            assert(tail[i] == s[i + k + 1]);
        }
        lemma_no_letters_count(head);
        lemma_localize_text_no_letters(tail);
        assert(head + seq!['\n'] + tail =~= s);
    }
}

/// Text without ASCII letters (Chinese text, mixed or not with digits and
/// punctuation) has no English-dominant line and comes back as it is.
pub proof fn law_text_without_letters_unchanged(s: Seq<char>)
    requires
        forall|i: int| 0 <= i < s.len() ==> !is_ascii_alpha(#[trigger] s[i]),
    ensures
        spec_localize_english_punct(s) == s,
{
    if s.len() > 0 {
        lemma_localize_text_no_letters(s);
    }
}

/// A line that is not English-dominant (such as a mixed Chinese-English
/// line) comes back as it is.
pub proof fn law_mixed_line_unchanged(l: Seq<char>)
    requires
        !l.contains('\n'),
        !is_english_dominant(l),
    ensures
        spec_localize_english_punct(l) == l,
{
    if l.len() > 0 {
        lemma_next_newline(l, 0);
        if next_newline(l, 0) < l.len() {
            assert(l[next_newline(l, 0)] == '\n');
        }
    }
}

proof fn lemma_absent_drop_first(s: Seq<char>, c: char)
    requires
        s.len() > 0,
        !s.contains(c),
    ensures
        !s.drop_first().contains(c),
{
    assert forall|i: int| 0 <= i < s.drop_first().len() implies s.drop_first()[i] != c by {
        assert(s.drop_first()[i] == s[i + 1]);
    }
}

proof fn lemma_fillers_spaced_absent(s: Seq<char>, c: char)
    requires
        !s.contains(c),
        c != ' ',
    ensures
        !fillers_spaced(s).contains(c),
    decreases s.len(),
{
    if s.len() > 0 {
        if is_en_filler(s[0]) {
            lemma_trim_start_shrinks(s, en_filler());
            lemma_trim_start_absent(s, en_filler(), c);
            lemma_fillers_spaced_absent(trim_start_by(s, en_filler()), c);
            lemma_contains_concat(seq![' '], fillers_spaced(trim_start_by(s, en_filler())), c);
        } else {
            lemma_absent_drop_first(s, c);
            lemma_fillers_spaced_absent(s.drop_first(), c);
            lemma_contains_concat(seq![s[0]], fillers_spaced(s.drop_first()), c);
        }
    }
}

proof fn lemma_space_before_punct_absent(s: Seq<char>, c: char)
    requires
        !s.contains(c),
    ensures
        !space_before_punct_dropped(s).contains(c),
    decreases s.len(),
{
    if s.len() > 0 {
        if is_white(s[0]) && trim_start_by(s, white()).len() > 0 && is_ascii_punct(
            trim_start_by(s, white())[0],
        ) {
            lemma_trim_start_shrinks(s, white());
            lemma_trim_start_absent(s, white(), c);
            lemma_space_before_punct_absent(trim_start_by(s, white()), c);
        } else {
            lemma_absent_drop_first(s, c);
            lemma_space_before_punct_absent(s.drop_first(), c);
            lemma_contains_concat(seq![s[0]], space_before_punct_dropped(s.drop_first()), c);
        }
    }
}

proof fn lemma_spaces_squeezed_absent(s: Seq<char>, c: char)
    requires
        !s.contains(c),
        c != ' ',
    ensures
        !spaces_squeezed(s).contains(c),
    decreases s.len(),
{
    if s.len() > 0 {
        if s.len() >= 2 && is_white(s[0]) && is_white(s[1]) {
            lemma_trim_start_shrinks(s, white());
            lemma_trim_start_absent(s, white(), c);
            lemma_spaces_squeezed_absent(trim_start_by(s, white()), c);
            lemma_contains_concat(seq![' '], spaces_squeezed(trim_start_by(s, white())), c);
        } else {
            lemma_absent_drop_first(s, c);
            lemma_spaces_squeezed_absent(s.drop_first(), c);
            lemma_contains_concat(seq![s[0]], spaces_squeezed(s.drop_first()), c);
        }
    }
}

proof fn lemma_rep_absent(a: char, c: char)
    requires
        a != c,
        c != ' ',
    ensures
        !seq![a, ' '].contains(c),
{
    assert(seq![a, ' '][0] != c && seq![a, ' '][1] != c);
}

/// Tidying a line adds no line break and no CJK character.
proof fn lemma_tidied_absent(l: Seq<char>, c: char)
    requires
        !l.contains(c),
        c == '\n' || is_cjk(c),
    ensures
        !english_line_tidied(l).contains(c),
{
    lemma_fillers_spaced_absent(l, c);
    let s0 = fillers_spaced(l);
    let s1 = replace_all(s0, seq!['，'], seq![',', ' ']);
    let s2 = replace_all(s1, seq!['。'], seq!['.', ' ']);
    let s3 = replace_all(s2, seq!['？'], seq!['?', ' ']);
    let s4 = replace_all(s3, seq!['！'], seq!['!', ' ']);
    let s5 = replace_all(s4, seq!['：'], seq![':', ' ']);
    let s6 = replace_all(s5, seq!['；'], seq![';', ' ']);
    let s7 = replace_all(s6, seq!['、'], seq![',', ' ']);
    lemma_rep_absent(',', c);
    lemma_rep_absent('.', c);
    lemma_rep_absent('?', c);
    lemma_rep_absent('!', c);
    lemma_rep_absent(':', c);
    lemma_rep_absent(';', c);
    lemma_replace_all_no_new_char(s0, seq!['，'], seq![',', ' '], c);
    lemma_replace_all_no_new_char(s1, seq!['。'], seq!['.', ' '], c);
    lemma_replace_all_no_new_char(s2, seq!['？'], seq!['?', ' '], c);
    lemma_replace_all_no_new_char(s3, seq!['！'], seq!['!', ' '], c);
    lemma_replace_all_no_new_char(s4, seq!['：'], seq![':', ' '], c);
    lemma_replace_all_no_new_char(s5, seq!['；'], seq![';', ' '], c);
    lemma_replace_all_no_new_char(s6, seq!['、'], seq![',', ' '], c);
    assert(half_width_punct(s0) == s7);
    lemma_space_before_punct_absent(s7, c);
    let s8 = space_before_punct_dropped(s7);
    lemma_spaces_squeezed_absent(s8, c);
    let s9 = spaces_squeezed(s8);
    lemma_trim_start_absent(s9, white(), c);
    lemma_trim_end_absent(trim_start_by(s9, white()), white(), c);
    let t = trim(s9);
    let r = sentences_capitalised(t);
    assert forall|k: int| 0 <= k < 26 implies UPPER@[k] != c by {
        assert(UPPER@[k] == UPPER[k]);
    }
    assert forall|j: int| 0 <= j < r.len() implies r[j] != c by {
        assert(t[j] != c);
        if is_ascii_lower(t[j]) && starts_sentence(t, j) {
            assert(0 <= (t[j] as u32 - 'a' as u32) < 26);
        }
    }
}

/// The lines of a text, as splitting at each line break gives them.
pub open spec fn lines_of(s: Seq<char>) -> Seq<Seq<char>>
    decreases s.len(),
{
    let k = next_newline(s, 0);
    if k >= s.len() {
        seq![s]
    } else {
        proof {
            lemma_next_newline(s, 0);
        }
        seq![s.take(k)] + lines_of(s.skip(k + 1))
    }
}

/// Lines joined with line breaks.
pub open spec fn join_lines(xs: Seq<Seq<char>>) -> Seq<char>
    decreases xs.len(),
{
    if xs.len() == 0 {
        Seq::empty()
    } else if xs.len() == 1 {
        xs[0]
    } else {
        xs[0] + seq!['\n'] + join_lines(xs.drop_first())
    }
}

/// Each line of `s`, localised.
pub open spec fn localized_lines(s: Seq<char>) -> Seq<Seq<char>> {
    lines_of(s).map_values(|l: Seq<char>| localize_line(l))
}

proof fn lemma_next_newline_at(s: Seq<char>, i: int, j: int)
    requires
        0 <= i <= j <= s.len(),
        forall|t: int| i <= t < j ==> s[t] != '\n',
        j == s.len() || s[j] == '\n',
    ensures
        next_newline(s, i) == j,
    decreases j - i,
{
    if i < j {
        lemma_next_newline_at(s, i + 1, j);
    }
}

proof fn lemma_lines_nonempty(s: Seq<char>)
    ensures
        lines_of(s).len() >= 1,
    decreases s.len(),
{
    let k = next_newline(s, 0);
    if k < s.len() {
        lemma_next_newline(s, 0);
        lemma_lines_nonempty(s.skip(k + 1));
    }
}

proof fn lemma_localize_text_lines(s: Seq<char>)
    ensures
        localize_text(s) == join_lines(localized_lines(s)),
    decreases s.len(),
{
    let k = next_newline(s, 0);
    if k >= s.len() {
        assert(localized_lines(s) =~= seq![localize_line(s)]);
    } else {
        lemma_next_newline(s, 0);
        let rest = s.skip(k + 1);
        lemma_localize_text_lines(rest);
        lemma_lines_nonempty(rest);
        let ys = localized_lines(s);
        assert(ys.drop_first() =~= localized_lines(rest));
        assert(ys[0] == localize_line(s.take(k)));
    }
}

proof fn lemma_lines_of_join(xs: Seq<Seq<char>>)
    requires
        xs.len() >= 1,
        forall|k: int| 0 <= k < xs.len() ==> !(#[trigger] xs[k]).contains('\n'),
    ensures
        lines_of(join_lines(xs)) == xs,
    decreases xs.len(),
{
    let x0 = xs[0];
    assert forall|t: int| 0 <= t < x0.len() implies x0[t] != '\n' by {
        assert(!xs[0].contains('\n'));
    }
    if xs.len() == 1 {
        lemma_next_newline_at(x0, 0, x0.len() as int);
        assert(lines_of(x0) =~= seq![x0]);
        assert(xs =~= seq![x0]);
    } else {
        let rest = xs.drop_first();
        assert forall|k: int| 0 <= k < rest.len() implies !(#[trigger] rest[k]).contains('\n') by {
            assert(rest[k] == xs[k + 1]);
        }
        lemma_lines_of_join(rest);
        let j = join_lines(xs);
        assert(j == x0 + seq!['\n'] + join_lines(rest));
        lemma_next_newline_at(j, 0, x0.len() as int);
        assert(j.take(x0.len() as int) =~= x0);
        assert(j.skip(x0.len() + 1int) =~= join_lines(rest));
        assert(lines_of(j) =~= seq![x0] + rest);
        assert(seq![x0] + rest =~= xs);
    }
}

} // verus!
