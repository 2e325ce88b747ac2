//! The post-processing chain, in the order of its steps.
use vstd::prelude::*;

use crate::chars::{
    chars_of, contains_seq, lemma_replace_all_prefix_kept, occurs_at, replace_all, replace_all_vec,
    string_of, trim, trim_vec,
};
use crate::convert::{spec_to_traditional, to_traditional, Conversion};
use crate::processing::english::spec_localize_english_punct;
use crate::processing::lists::spec_format_lists;
use crate::processing::period::spec_strip_short_trailing_period;
use crate::processing::phrases::spec_collapse_phrase_repeats;
use crate::processing::punct::spec_apply_punct_rules;
use crate::processing::repeats::spec_collapse_repeats;
use crate::chars::is_cjk;
use crate::processing::lists::law_lists_no_new_char;
use crate::processing::punct::law_punct_no_new_char;
use crate::processing::wording::{
    law_fix_no_new_char, law_interjections_normalized, spec_fix_tw_pronunciation,
    spec_normalize_interjections,
};
use crate::processing::{
    apply_punct_rules, collapse_phrase_repeats, collapse_repeats, fix_tw_pronunciation,
    format_lists, localize_english_punct, normalize_interjections, strip_short_trailing_period,
};

verus! {

/// Steps 1 to 7: what the converter is handed. Step 6 (lists) runs only
/// when `lists` is set.
pub open spec fn spec_prepare(s: Seq<char>, lists: bool) -> Seq<char> {
    let s1 = spec_collapse_repeats(s);
    let s2 = spec_collapse_phrase_repeats(s1);
    let s3 = spec_normalize_interjections(s2);
    let s4 = spec_fix_tw_pronunciation(s3);
    let s5 = spec_apply_punct_rules(s4);
    let s6 = if lists {
        spec_format_lists(s5)
    } else {
        s5
    };
    spec_localize_english_punct(s6)
}

/// Steps 8 and 9, given what the converter gave for the prepared text.
pub open spec fn spec_finish(prepared: Seq<char>, conversion: Conversion) -> Seq<char> {
    spec_strip_short_trailing_period(spec_to_traditional(prepared, conversion))
}

/// Runs steps 1 to 7 (step 6 only when `lists` is set). What it gives the
/// converter holds no 呃, 哎 or 誒: the interjections are normalised and no
/// later step brings them back.
pub fn prepare(input: &str, lists: bool) -> (res: String)
    ensures
        res@ == spec_prepare(input@, lists),
        !res@.contains('呃'),
        !res@.contains('哎'),
        !res@.contains('誒'),
{
    let s = collapse_repeats(input);
    let s = collapse_phrase_repeats(s.as_str());
    let s3 = normalize_interjections(s.as_str());
    let s4 = fix_tw_pronunciation(s3.as_str());
    let s5 = apply_punct_rules(s4.as_str());
    let s6 = if lists {
        format_lists(s5.as_str())
    } else {
        s5
    };
    proof {
        law_interjections_normalized(s@);
        interjection_absent(s3@, s4@, s6@, lists, '呃');
        interjection_absent(s3@, s4@, s6@, lists, '哎');
        interjection_absent(s3@, s4@, s6@, lists, '誒');
    }
    localize_english_punct(s6.as_str())
}

/// A CJK character other than 垃, 圾 and 吼 that is not in the text after
/// step 3 is in none of the texts after steps 4, 5 and 6.
proof fn interjection_absent(s3: Seq<char>, s4: Seq<char>, s6: Seq<char>, lists: bool, c: char)
    requires
        is_cjk(c),
        c != '垃' && c != '圾' && c != '吼',
        !s3.contains(c),
        s4 == spec_fix_tw_pronunciation(s3),
        s6 == (if lists {
            spec_format_lists(spec_apply_punct_rules(s4))
        } else {
            spec_apply_punct_rules(s4)
        }),
    ensures
        !s6.contains(c),
{
    law_fix_no_new_char(s3, c);
    law_punct_no_new_char(s4, c);
    if lists {
        law_lists_no_new_char(spec_apply_punct_rules(s4), c);
    }
}

/// Runs steps 8 and 9 on the prepared text, given what the converter gave
/// for it.
pub fn finish(prepared: &str, conversion: Conversion) -> (res: String)
    ensures
        res@ == spec_finish(prepared@, conversion),
{
    let s = to_traditional(prepared, conversion);
    strip_short_trailing_period(s.as_str())
}

/// The whole chain: the empty text stays empty; otherwise steps 1 to 7,
/// then `convert` (the S2TW converter) on the prepared text, then steps 8
/// and 9 on what it gave.
pub fn post_process<F: Fn(&str) -> Conversion>(input: &str, lists: bool, convert: F) -> (res:
    String)
    requires
        forall|t: &str| convert.requires((t,)),
    ensures
        input@.len() == 0 ==> res@.len() == 0,
        input@.len() > 0 ==> exists|t: &str, c: Conversion|
            {
                &&& t@ == spec_prepare(input@, lists)
                &&& !t@.contains('呃') && !t@.contains('哎') && !t@.contains('誒')
                &&& convert.ensures((t,), c)
                &&& res@ == spec_finish(t@, c)
            },
{
    let v = chars_of(input);
    if v.len() == 0 {
        return String::new();
    }
    let prepared = prepare(input, lists);
    let conversion = convert(prepared.as_str());
    finish(prepared.as_str(), conversion)
}

pub open spec fn open_tag() -> Seq<char> {
    seq!['<', 'T', 'R', 'A', 'N', 'S', 'C', 'R', 'I', 'P', 'T', '>']
}

pub open spec fn close_tag() -> Seq<char> {
    seq!['<', '/', 'T', 'R', 'A', 'N', 'S', 'C', 'R', 'I', 'P', 'T', '>']
}

/// Every `<TRANSCRIPT>` removed, then every `</TRANSCRIPT>`, then trimmed.
pub open spec fn spec_strip_transcript_tags(s: Seq<char>) -> Seq<char> {
    trim(replace_all(replace_all(s, open_tag(), Seq::empty()), close_tag(), Seq::empty()))
}

/// Removes the `<TRANSCRIPT>` / `</TRANSCRIPT>` tags that VoiceInk wraps
/// around its transcripts, and trims the result.
pub fn strip_transcript_tags(s: &str) -> (res: String)
    ensures
        res@ == spec_strip_transcript_tags(s@),
{
    let v = chars_of(s);
    let open = vec!['<', 'T', 'R', 'A', 'N', 'S', 'C', 'R', 'I', 'P', 'T', '>'];
    let close = vec!['<', '/', 'T', 'R', 'A', 'N', 'S', 'C', 'R', 'I', 'P', 'T', '>'];
    let none: Vec<char> = Vec::new();
    assert(open@ == open_tag() && close@ == close_tag());
    let t = replace_all_vec(&v, &open, &none);
    let t = replace_all_vec(&t, &close, &none);
    string_of(&trim_vec(&t))
}

/// The chain for VoiceInk input: the transcript tags are stripped first.
pub fn post_process_voiceink<F: Fn(&str) -> Conversion>(
    input: &str,
    lists: bool,
    convert: F,
) -> (res: String)
    requires
        forall|t: &str| convert.requires((t,)),
    ensures
        spec_strip_transcript_tags(input@).len() == 0 ==> res@.len() == 0,
        spec_strip_transcript_tags(input@).len() > 0 ==> exists|t: &str, c: Conversion|
            {
                &&& t@ == spec_prepare(spec_strip_transcript_tags(input@), lists)
                &&& convert.ensures((t,), c)
                &&& res@ == spec_finish(t@, c)
            },
{
    let stripped = strip_transcript_tags(input);
    post_process(stripped.as_str(), lists, convert)
}

proof fn lemma_tags_have_one_angle()
    ensures
        forall|k: int| 1 <= k < 12 ==> open_tag()[k] != '<',
        forall|k: int| 1 <= k < 13 ==> close_tag()[k] != '<',
        open_tag().len() == 12,
        close_tag().len() == 13,
        open_tag()[0] == '<',
        close_tag()[0] == '<',
        close_tag()[1] == '/',
        open_tag()[1] == 'T',
{
    assert(open_tag()[1] != '<');
    assert(open_tag()[2] != '<');
    assert(open_tag()[3] != '<');
    assert(open_tag()[4] != '<');
    assert(open_tag()[5] != '<');
    assert(open_tag()[6] != '<');
    assert(open_tag()[7] != '<');
    assert(open_tag()[8] != '<');
    assert(open_tag()[9] != '<');
    assert(open_tag()[10] != '<');
    assert(open_tag()[11] != '<');
    assert(close_tag()[1] != '<');
    assert(close_tag()[2] != '<');
    assert(close_tag()[3] != '<');
    assert(close_tag()[4] != '<');
    assert(close_tag()[5] != '<');
    assert(close_tag()[6] != '<');
    assert(close_tag()[7] != '<');
    assert(close_tag()[8] != '<');
    assert(close_tag()[9] != '<');
    assert(close_tag()[10] != '<');
    assert(close_tag()[11] != '<');
    assert(close_tag()[12] != '<');
}

/// A window of `x + t` that starts inside `x` and ends inside `t` cannot
/// hold `pat` when `t` starts with `<` and `pat` has `<` only first.
proof fn lemma_no_spanning(x: Seq<char>, t: Seq<char>, pat: Seq<char>, i: int)
    requires
        0 <= i < x.len() < i + pat.len(),
        t.len() > 0,
        t[0] == '<',
        forall|k: int| 1 <= k < pat.len() ==> pat[k] != '<',
    ensures
        !occurs_at(x + t, pat, i),
{
    if occurs_at(x + t, pat, i) {
        let k = x.len() - i;
        assert((x + t).subrange(i, i + pat.len())[k] == (x + t)[x.len() as int]);
        assert(pat[k] != '<');
    }
}

/// A window of `x + t` that lies inside `x` holds `pat` only if `x` does.
proof fn lemma_no_inner(x: Seq<char>, t: Seq<char>, pat: Seq<char>, i: int)
    requires
        0 <= i,
        i + pat.len() <= x.len(),
        !contains_seq(x, pat),
    ensures
        !occurs_at(x + t, pat, i),
{
    assert((x + t).subrange(i, i + pat.len()) =~= x.subrange(i, i + pat.len()));
    if occurs_at(x + t, pat, i) {
        assert(occurs_at(x, pat, i));
    }
}

/// Text that holds neither tag, wrapped in `<TRANSCRIPT>` ... `</TRANSCRIPT>`,
/// comes back unwrapped (and trimmed).
pub proof fn law_transcript_unwrapped(x: Seq<char>)
    requires
        !contains_seq(x, open_tag()),
        !contains_seq(x, close_tag()),
    ensures
        spec_strip_transcript_tags(open_tag() + x + close_tag()) == trim(x),
{
    lemma_tags_have_one_angle();
    let open = open_tag();
    let close = close_tag();
    let none = Seq::<char>::empty();
    let w = open + x + close;
    let xc = x + close;
    assert(w.take(12) =~= open);
    assert(w.skip(12) =~= xc);
    assert(replace_all(w, open, none) == none + replace_all(xc, open, none));
    assert forall|i: int| 0 <= i < xc.len() implies !occurs_at(xc + none, open, i) by {
        assert(xc + none =~= xc);
        if i + 12 <= x.len() {
            lemma_no_inner(x, close, open, i);
        } else if i < x.len() {
            lemma_no_spanning(x, close, open, i);
        } else if i == x.len() {
            if occurs_at(xc, open, i) {
                assert(xc.subrange(i, i + 12)[1] == close[1]);
            }
        } else if i + 12 <= xc.len() {
            if occurs_at(xc, open, i) {
                assert(xc.subrange(i, i + 12)[0] == close[i - x.len()]);
            }
        }
    }
    lemma_replace_all_prefix_kept(xc, none, open, none);
    assert(replace_all(none, open, none) == none);
    assert(xc + none =~= xc);
    assert forall|i: int| 0 <= i < x.len() implies !occurs_at(x + close, close, i) by {
        if i + 13 <= x.len() {
            lemma_no_inner(x, close, close, i);
        } else {
            lemma_no_spanning(x, close, close, i);
        }
    }
    lemma_replace_all_prefix_kept(x, close, close, none);
    assert(close.take(13) =~= close);
    assert(close.skip(13) =~= none);
    assert(replace_all(close, close, none) == none + replace_all(none, close, none));
    assert(x + none =~= x);
}

} // verus!
