//! The hand-written rules agree with the same rules written as regular
//! expressions, on many generated inputs.
use regex::{Captures, Regex};
use tongwen::processing::{apply_punct_rules, format_lists, localize_english_punct};

struct Lcg(u64);

impl Lcg {
    fn next(&mut self) -> u64 {
        self.0 = self.0.wrapping_mul(6364136223846793005).wrapping_add(1442695040888963407);
        self.0 >> 33
    }

    fn text(&mut self, alphabet: &[&str], max_len: u64) -> String {
        let n = self.next() % (max_len + 1);
        (0..n).map(|_| alphabet[(self.next() % alphabet.len() as u64) as usize]).collect()
    }
}

fn particle_mark(c: char) -> char {
    match c {
        '吗' | '嗎' | '呢' => '？',
        _ => '！',
    }
}

struct PunctRegexes {
    re1: Regex,
    re2: Regex,
    phrases: Vec<(Regex, Regex, String)>,
}

fn punct_regexes() -> PunctRegexes {
    let class = "吗嗎呢啊呀啦哇喔哦噢耶欸";
    let re1 = Regex::new(&format!(r"([{}])([。！？])", regex::escape(class))).unwrap();
    let re2 = Regex::new(&format!(r"([{}])$", regex::escape(class))).unwrap();
    let rules: [(char, &[&str]); 2] = [
        (
            '？',
            &[
                "什么啊", "怎么啊", "为什么啊", "可以吗", "好吗", "是不是", "对不对", "行不行", "好不好",
                "要不要", "有没有", "是吗", "对吗", "能不能",
            ],
        ),
        (
            '！',
            &[
                "怎样啦", "这样啦", "干嘛啦", "什么啦", "这样啊", "欸呀呀", "太棒了", "好厉害", "真的假的",
                "不会吧", "天啊", "我的天",
            ],
        ),
    ];
    let mut phrases = Vec::new();
    for (mark, ps) in rules {
        for p in ps {
            phrases.push((
                Regex::new(&format!(r"{}[。，！？]", regex::escape(p))).unwrap(),
                Regex::new(&format!(r"{}$", regex::escape(p))).unwrap(),
                format!("{}{}", p, mark),
            ));
        }
    }
    PunctRegexes { re1, re2, phrases }
}

fn punct_by_regex(res: &PunctRegexes, text: &str) -> String {
    if text.is_empty() {
        return String::new();
    }
    let re1 = &res.re1;
    let mut s = re1
        .replace_all(text, |caps: &Captures| {
            let ch = caps[1].chars().next().unwrap();
            format!("{}{}", ch, particle_mark(ch))
        })
        .into_owned();
    s = res
        .re2
        .replace_all(&s, |caps: &Captures| {
            let ch = caps[1].chars().next().unwrap();
            format!("{}{}", ch, particle_mark(ch))
        })
        .into_owned();
    for (re_punct, re_eos, rep) in &res.phrases {
        s = re_punct.replace_all(&s, rep.as_str()).into_owned();
        s = re_eos.replace_all(&s, rep.as_str()).into_owned();
    }
    let boundary = |c: Option<&char>| matches!(c, None | Some('。' | '！' | '？' | '，' | '、'));
    let chars: Vec<char> = s.chars().collect();
    let mut out = String::new();
    for i in 0..chars.len() {
        let prev = if i > 0 { Some(chars[i - 1]) } else { None };
        if chars[i] == '哈' && prev != Some('哈') && boundary(chars.get(i + 1)) {
            out.push('吼');
        } else {
            out.push(chars[i]);
        }
    }
    let chars: Vec<char> = out.chars().collect();
    let mut out = String::new();
    for i in 0..chars.len() {
        let prev_ok = i > 0 && "了啊嘛耶喔欸吧呢哦對".contains(chars[i - 1]);
        if chars[i] == '好' && prev_ok && boundary(chars.get(i + 1)) {
            out.push('吼');
        } else {
            out.push(chars[i]);
        }
    }
    out
}

fn lists_by_regex(re_marker: &Regex, re_prefix: &Regex, text: &str) -> String {
    if text.is_empty() {
        return String::new();
    }
    let mut markers: Vec<(usize, usize, String)> = Vec::new();
    for m in re_marker.find_iter(text) {
        let ord = m.as_str().chars().nth(1).unwrap().to_string();
        if let Some(c) = text[m.end()..].chars().next() {
            if matches!(c, '次' | '名' | '件') {
                continue;
            }
        }
        markers.push((m.start(), m.end(), ord));
    }
    if markers.len() < 2 || markers[0].2 != "一" {
        return text.to_string();
    }
    let intro = text[..markers[0].0]
        .trim()
        .trim_end_matches(|c| matches!(c, '，' | ',' | '、' | '：' | ':' | '；' | ';' | '。' | '　' | ' '));
    let mut items: Vec<String> = Vec::new();
    for idx in 0..markers.len() {
        let next = if idx + 1 < markers.len() { markers[idx + 1].0 } else { text.len() };
        let seg = re_prefix.replace(&text[markers[idx].1..next], "").into_owned();
        let seg = seg
            .trim()
            .trim_end_matches(|c| matches!(c, '。' | '，' | ',' | '、' | '；' | ';' | '　' | ' '))
            .to_string();
        if !seg.is_empty() {
            items.push(seg);
        }
    }
    if items.len() < 2 {
        return text.to_string();
    }
    let body = items
        .iter()
        .enumerate()
        .map(|(i, it)| format!("{}. {}", i + 1, it))
        .collect::<Vec<_>>()
        .join("\n");
    if intro.is_empty() {
        body
    } else {
        format!("{}：\n{}", intro, body)
    }
}

const EN_FILLERS: &[char] = &['啊', '嗯', '呃', '哦', '喔', '欸', '唉', '誒', '呀', '嘛'];

fn is_cjk(c: char) -> bool {
    ('\u{4E00}'..='\u{9FFF}').contains(&c)
}

fn english_dominant(line: &str) -> bool {
    if line.is_empty() {
        return false;
    }
    let cjk: Vec<char> = line.chars().filter(|c| is_cjk(*c)).collect();
    let letters = line.chars().filter(|c| c.is_ascii_alphabetic()).count();
    if cjk.is_empty() {
        return letters > 0;
    }
    letters >= 12 && cjk.len() <= 1 + letters / 15 && cjk.iter().all(|c| EN_FILLERS.contains(c))
}

fn english_by_regex(re: &[Regex; 5], text: &str) -> String {
    if text.is_empty() {
        return String::new();
    }
    let mut lines = Vec::new();
    for line in text.split('\n') {
        if line.is_empty() || !english_dominant(line) {
            lines.push(line.to_string());
            continue;
        }
        let mut l = re[0].replace_all(line, " ").into_owned();
        for (a, b) in [
            ('，', ", "),
            ('。', ". "),
            ('？', "? "),
            ('！', "! "),
            ('：', ": "),
            ('；', "; "),
            ('、', ", "),
        ] {
            l = l.replace(a, b);
        }
        l = re[1].replace_all(&l, "$1").into_owned();
        l = re[2].replace_all(&l, " ").into_owned();
        l = l.trim().to_string();
        l = re[3]
            .replace_all(&l, |caps: &Captures| {
                let prefix = caps.get(1).map(|m| m.as_str()).unwrap_or("");
                format!("{}{}", prefix, caps.get(2).unwrap().as_str().to_uppercase())
            })
            .into_owned();
        l = re[4].replace_all(&l, "I").into_owned();
        lines.push(l);
    }
    lines.join("\n")
}

#[test]
fn punct_rules_agree_with_regex() {
    let alphabet = [
        "吗", "嗎", "呢", "啊", "呀", "啦", "哇", "喔", "哦", "噢", "耶", "欸", "。", "！", "？", "，",
        "、", "哈", "好", "了", "對", "什么", "可以", "是", "不", "对", "真的", "假的", "天", "我的",
        "这样", "x",
    ];
    let res = punct_regexes();
    let mut g = Lcg(7);
    for _ in 0..3000 {
        let t = g.text(&alphabet, 10);
        assert_eq!(apply_punct_rules(&t), punct_by_regex(&res, &t), "{:?}", t);
    }
}

#[test]
fn lists_agree_with_regex() {
    let alphabet = [
        "第", "一", "二", "三", "十", "两", "次", "名", "件", "個", "事", "事情", "是", "就是", "要",
        "點 ", "點", " ", "，", "：", "。", "　", "；", "a", "\n", "東西", "原因", "\t", "X",
    ];
    let re_marker = Regex::new(r"第([一二三四五六七八九十兩两])").unwrap();
    let re_prefix = Regex::new(
        r"^(?:[個个件位種种項项條条張张份步點点] ?)?(?:事情|事兒|事儿|事|東西|东西|原因|問題|问题|地方|方面|步驟|步骤)?(?:是|為|为|要|就是)?[，,、：:。　\s]*",
    )
    .unwrap();
    let mut g = Lcg(11);
    for _ in 0..3000 {
        let t = g.text(&alphabet, 14);
        assert_eq!(format_lists(&t), lists_by_regex(&re_marker, &re_prefix, &t), "{:?}", t);
    }
}

#[test]
fn english_agrees_with_regex() {
    let alphabet = [
        "a", "b", "i", "I", "z", "word", " ", "  ", "\t", "，", "。", "？", "！", "：", "；", "、",
        "嗯", "啊", "你", ".", "?", "!", ",", "\n", "é", "_", "-", "1", "\u{3000}", "abcdefghijkl",
    ];
    let re = [
        Regex::new(&format!("[{}]+", EN_FILLERS.iter().collect::<String>())).unwrap(),
        Regex::new(r"\s+([,.?!:;])").unwrap(),
        Regex::new(r"\s{2,}").unwrap(),
        Regex::new(r"(^|[.?!]\s+)([a-z])").unwrap(),
        Regex::new(r"\bi\b").unwrap(),
    ];
    let mut g = Lcg(13);
    for _ in 0..1000 {
        let t = g.text(&alphabet, 12);
        assert_eq!(localize_english_punct(&t), english_by_regex(&re, &t), "{:?}", t);
    }
}
