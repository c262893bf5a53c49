use pinyin::{
    lazy_pinyin, to_pinyin_vec, word_to_pinyin, Args, Dataset, Entry, Phrase, Pinyin, PinyinMulti,
    Style, ToPinyin, ToPinyinMulti,
};

fn entry(code: char, syllables: &[&'static str]) -> Entry<'static> {
    Entry { code, syllables: syllables.to_vec() }
}

fn phrase(text: &'static str, syllables: &[&'static str]) -> Phrase<'static> {
    Phrase { text, syllables: syllables.to_vec() }
}

fn entries() -> Vec<Entry<'static>> {
    vec![
        entry('一', &["yī"]),
        entry('上', &["shàng", "shǎng"]),
        entry('下', &["xià"]),
        entry('不', &["bù", "fǒu"]),
        entry('中', &["zhōng", "zhòng"]),
        entry('事', &["shì"]),
        entry('人', &["rén"]),
        entry('从', &["cóng", "zòng"]),
        entry('他', &["tā"]),
        entry('你', &["nǐ"]),
        entry('便', &["biàn", "pián"]),
        entry('压', &["yā", "yà"]),
        entry('同', &["tóng", "tòng"]),
        entry('呣', &["ḿ", "m\u{300}", "móu"]),
        entry('啊', &["a", "á", "ǎ", "à", "ā"]),
        entry('喝', &["hē", "hè"]),
        entry('嗯', &["ń", "ň", "ǹ"]),
        entry('嘸', &["fǔ", "wǔ", "m\u{304}", "ḿ"]),
        entry('国', &["guó"]),
        entry('在', &["zài"]),
        entry('大', &["dà", "dài", "tài"]),
        entry('天', &["tiān"]),
        entry('女', &["nǚ", "rǔ"]),
        entry('好', &["hǎo", "hào"]),
        entry('子', &["zi", "zǐ"]),
        entry('字', &["zì"]),
        entry('安', &["ān"]),
        entry('宜', &["yí"]),
        entry('小', &["xiǎo"]),
        entry('巴', &["bā"]),
        entry('弱', &["ruò"]),
        entry('彩', &["cǎi"]),
        entry('心', &["xīn"]),
        entry('我', &["wǒ"]),
        entry('打', &["dǎ", "dá"]),
        entry('拉', &["lā", "lá", "lǎ", "là"]),
        entry('拼', &["pīn"]),
        entry('文', &["wén"]),
        entry('新', &["xīn"]),
        entry('是', &["shì"]),
        entry('有', &["yǒu", "yòu"]),
        entry('服', &["fú", "fù"]),
        entry('欸', &["āi", "ǎi", "ê\u{304}", "ế", "ê\u{30c}", "ề", "xiè", "éi", "ěi", "èi", "ēi"]),
        entry('水', &["shuǐ"]),
        entry('没', &["méi", "mò", "me"]),
        entry('流', &["liú"]),
        entry('略', &["lüè"]),
        entry('的', &["de", "dí", "dì"]),
        entry('绿', &["lǜ", "lù"]),
        entry('荷', &["hé", "hè"]),
        entry('薄', &["báo", "bó", "bò"]),
        entry('血', &["xuè", "xiě"]),
        entry('行', &["xíng", "háng", "hàng", "héng"]),
        entry('衣', &["yī", "yì"]),
        entry('货', &["huò"]),
        entry('贪', &["tān"]),
        entry('还', &["hái", "huán", "fú"]),
        entry('这', &["zhè", "zhèi"]),
        entry('重', &["zhòng", "chóng"]),
        entry('量', &["liàng", "liáng"]),
        entry('阿', &["ā", "ē"]),
        entry('音', &["yīn"]),
        entry('高', &["gāo"]),
    ]
}

fn phrases() -> Vec<Phrase<'static>> {
    vec![
        phrase("重新", &["chóng", "xīn"]),
        phrase("同行", &["tóng", "háng"]),
        phrase("便宜", &["pián", "yí"]),
        phrase("便宜货", &["pián", "yí", "huò"]),
        phrase("贪便宜", &["tān", "pián", "yí"]),
        phrase("便宜从事", &["biàn", "yí", "cóng", "shì"]),
        phrase("打量", &["dǎ", "liàng"]),
        phrase("薄荷", &["bò", "hé"]),
        phrase("薄弱", &["bó", "ruò"]),
        phrase("衣服", &["yī", "fú"]),
        phrase("高血压", &["gāo", "xuè", "yā"]),
        phrase("流血", &["liú", "xiě"]),
        phrase("喝水", &["hē", "shuǐ"]),
        phrase("喝彩", &["hè", "cǎi"]),
    ]
}

fn sample() -> Dataset {
    Dataset::compile(&entries(), &phrases()).unwrap()
}

fn each<'d>(data: &'d Dataset, text: &str) -> Vec<Option<Pinyin<'d>>> {
    let mut iter = text.to_pinyin(data);
    let mut out = Vec::new();
    while let Some(item) = iter.next() {
        out.push(item);
    }
    out
}

fn each_multi<'d>(data: &'d Dataset, text: &str) -> Vec<Option<PinyinMulti<'d>>> {
    let mut iter = text.to_pinyin_multi(data);
    let mut out = Vec::new();
    while let Some(item) = iter.next() {
        out.push(item);
    }
    out
}

fn all_of<'d>(multi: PinyinMulti<'d>) -> Vec<Pinyin<'d>> {
    let mut iter = multi.into_iter();
    let mut out = Vec::new();
    while let Some(item) = iter.next() {
        out.push(item);
    }
    out
}

fn words<'d>(data: &'d Dataset, words: &[&str]) -> Vec<Option<Vec<&'d str>>> {
    let mut iter = words.to_pinyin(data);
    let mut out = Vec::new();
    while let Some(word) = iter.next() {
        out.push(word.into_iter().map(|p| p.map(Pinyin::with_tone)).collect::<Option<Vec<_>>>());
    }
    out
}

fn zi(data: &Dataset) -> PinyinMulti<'_> {
    '子'.to_pinyin_multi(data).expect("no pinyin?")
}

fn multi_of(data: &Dataset, c: char) -> PinyinMulti<'_> {
    c.to_pinyin_multi(data).unwrap_or_else(|| panic!("No pinyin for char: {c}"))
}

struct TestCase {
    hans: String,
    args: Args,
    result: Vec<Vec<String>>,
    lazy_result: Vec<String>,
}

impl TestCase {
    fn new(hans: &str, args: Args, result: Vec<Vec<&str>>, lazy_result: Vec<&str>) -> TestCase {
        TestCase {
            hans: hans.to_string(),
            args,
            result: result
                .into_iter()
                .map(|vec| vec.into_iter().map(String::from).collect())
                .collect(),
            lazy_result: lazy_result.into_iter().map(String::from).collect(),
        }
    }
}

fn style_cases() -> Vec<TestCase> {
    vec![
        TestCase::new(
            "中国人",
            Args::new(),
            vec![vec!["zhong"], vec!["guo"], vec!["ren"]],
            vec!["zhong", "guo", "ren"],
        ),
        TestCase::new(
            "中国人",
            Args { style: Style::Normal, heteronym: false },
            vec![vec!["zhong"], vec!["guo"], vec!["ren"]],
            vec!["zhong", "guo", "ren"],
        ),
        TestCase::new(
            "中国人",
            Args { style: Style::Tone, heteronym: false },
            vec![vec!["zhōng"], vec!["guó"], vec!["rén"]],
            vec!["zhōng", "guó", "rén"],
        ),
        TestCase::new(
            "中国人",
            Args { style: Style::Tone2, heteronym: false },
            vec![vec!["zho1ng"], vec!["guo2"], vec!["re2n"]],
            vec!["zho1ng", "guo2", "re2n"],
        ),
        TestCase::new(
            "中国人",
            Args { style: Style::Initials, heteronym: false },
            vec![vec!["zh"], vec!["g"], vec!["r"]],
            vec!["zh", "g", "r"],
        ),
        TestCase::new(
            "中国人",
            Args { style: Style::FirstLetter, heteronym: false },
            vec![vec!["z"], vec!["g"], vec!["r"]],
            vec!["z", "g", "r"],
        ),
        TestCase::new(
            "中国人",
            Args { style: Style::Finals, heteronym: false },
            vec![vec!["ong"], vec!["uo"], vec!["en"]],
            vec!["ong", "uo", "en"],
        ),
        TestCase::new(
            "中国人",
            Args { style: Style::FinalsTone, heteronym: false },
            vec![vec!["ōng"], vec!["uó"], vec!["én"]],
            vec!["ōng", "uó", "én"],
        ),
        TestCase::new(
            "中国人",
            Args { style: Style::FinalsTone2, heteronym: false },
            vec![vec!["o1ng"], vec!["uo2"], vec!["e2n"]],
            vec!["o1ng", "uo2", "e2n"],
        ),
    ]
}

#[test]
fn sample_is_accepted() {
    assert!(Dataset::compile(&entries(), &phrases()).is_ok());
}

#[test]
fn special_code_point() {
    let data = sample();
    assert!('\u{10FFFF}'.to_pinyin(&data).is_none());
}

#[test]
fn phrase_pinyin() {
    let data = sample();
    let cases: Vec<(Vec<&str>, Vec<Option<Vec<&str>>>)> = vec![
        (vec!["重新"], vec![Some(vec!["chóng", "xīn"])]),
        (vec!["同行"], vec![Some(vec!["tóng", "háng"])]),
        (
            vec!["便宜", "便宜货"],
            vec![Some(vec!["pián", "yí"]), Some(vec!["pián", "yí", "huò"])],
        ),
        (
            vec!["贪便宜", "便宜从事"],
            vec![Some(vec!["tān", "pián", "yí"]), Some(vec!["biàn", "yí", "cóng", "shì"])],
        ),
        (vec!["打量"], vec![Some(vec!["dǎ", "liàng"])]),
        (
            vec!["薄荷", "薄弱", "衣服", "薄"],
            vec![
                Some(vec!["bò", "hé"]),
                Some(vec!["bó", "ruò"]),
                Some(vec!["yī", "fú"]),
                Some(vec!["báo"]),
            ],
        ),
        (
            vec!["高血压", "流血"],
            vec![Some(vec!["gāo", "xuè", "yā"]), Some(vec!["liú", "xiě"])],
        ),
        (vec!["喝水", "喝彩"], vec![Some(vec!["hē", "shuǐ"]), Some(vec!["hè", "cǎi"])]),
        (vec!["\u{10FFFF}"], vec![None]),
        (vec!["\u{10FFFF}你好"], vec![None]),
    ];
    for (phrase, expected) in cases.iter() {
        assert_eq!(&words(&data, phrase), expected);
    }
}

#[test]
fn pinyin_multi_count() {
    let data = sample();
    assert_eq!(zi(&data).count(), 2);
}

#[test]
fn pinyin_multi_get_opt() {
    let data = sample();
    assert_eq!(zi(&data).get_opt(0).map(Pinyin::with_tone), Some("zi"));
    assert_eq!(zi(&data).get_opt(1).map(Pinyin::with_tone), Some("zǐ"));
    assert_eq!(zi(&data).get_opt(2).map(Pinyin::with_tone), None);
}

#[test]
fn pinyin_multi_get() {
    let data = sample();
    assert_eq!(zi(&data).get(0).with_tone(), "zi");
    assert_eq!(zi(&data).get(1).with_tone(), "zǐ");
}

#[test]
#[should_panic]
fn pinyin_multi_get_panic() {
    let data = sample();
    zi(&data).get(2);
}

#[test]
fn pinyin_multi_iter() {
    let data = sample();
    let mut iter = zi(&data).into_iter();
    assert_eq!(iter.next().map(Pinyin::with_tone), Some("zi"));
    assert_eq!(iter.next().map(Pinyin::with_tone), Some("zǐ"));
    assert_eq!(iter.next().map(Pinyin::with_tone), None);
}

#[test]
fn str_to_pinyin_multi() {
    let data = sample();
    let actual = each_multi(&data, "还没")
        .into_iter()
        .map(|multi| all_of(multi.unwrap()).into_iter().map(Pinyin::with_tone).collect::<Vec<_>>())
        .collect::<Vec<_>>();
    let expected = vec![vec!["hái", "huán", "fú"], vec!["méi", "mò", "me"]];
    assert_eq!(actual, expected);
}

#[test]
fn compat_test_pinyin() {
    let data = sample();
    let mut test_data = style_cases();
    test_data.push(TestCase::new(
        "中国人",
        Args { style: Style::Normal, heteronym: true },
        vec![vec!["zhong"], vec!["guo"], vec!["ren"]],
        vec!["zhong", "guo", "ren"],
    ));
    test_data.push(TestCase::new(
        "阿拉巴",
        Args { style: Style::Normal, heteronym: true },
        vec![vec!["a", "e"], vec!["la"], vec!["ba"]],
        vec!["a", "la", "ba"],
    ));
    for case in &test_data {
        assert_eq!(case.result, pinyin::pinyin(&data, &case.hans, &case.args));
        assert_eq!(case.lazy_result, lazy_pinyin(&data, &case.hans, &case.args));
    }
}

#[test]
fn compat_test_non_chinese_pinyin() {
    let data = sample();
    let hans = "中国人abc你好";
    let expect: Vec<Vec<String>> = vec![
        vec!["zhong".to_string()],
        vec!["guo".to_string()],
        vec!["ren".to_string()],
        vec![],
        vec![],
        vec![],
        vec!["ni".to_string()],
        vec!["hao".to_string()],
    ];
    let result = pinyin::pinyin(&data, hans, &Args::new());
    assert_eq!(expect, result);
}

#[test]
fn compat_test_non_chinese_lazy_pinyin() {
    let data = sample();
    let hans = "中国人abc你好";
    let expect = vec![
        "zhong".to_string(),
        "guo".to_string(),
        "ren".to_string(),
        "ni".to_string(),
        "hao".to_string(),
    ];
    let result = lazy_pinyin(&data, hans, &Args::new());
    assert_eq!(expect, result);
}

#[test]
fn compat_test_new_args() {
    let args = Args::new();
    assert_eq!(Style::Normal, args.style);
    assert!(!args.heteronym);

    let expected = Args { style: Style::Normal, heteronym: false };
    assert_eq!(expected, args);
}

#[test]
fn test_default_args() {
    let args: Args = Default::default();
    assert_eq!(Style::Normal, args.style);
    assert!(!args.heteronym);

    let args = Args::default();
    assert_eq!(Style::Normal, args.style);
    assert!(!args.heteronym);

    let expected = Args { style: Style::Normal, heteronym: false };
    assert_eq!(expected, args);
}

#[test]
fn test_no_initial() {
    let data = sample();
    let hans = "安";
    let mut expect = vec!["an".to_string()];
    let mut result = lazy_pinyin(&data, hans, &Args::new());
    assert_eq!(expect, result);

    expect = vec!["an".to_string()];
    result = lazy_pinyin(&data, hans, &Args { style: Style::Finals, heteronym: false });
    assert_eq!(expect, result);
}

#[test]
fn test_no_phonetic_symbol() {
    let data = sample();
    let hans = "啊";
    let mut expect = vec!["a".to_string()];
    let mut result = lazy_pinyin(&data, hans, &Args::new());
    assert_eq!(expect, result);

    expect = vec!["a".to_string()];
    result = lazy_pinyin(&data, hans, &Args { style: Style::Finals, heteronym: false });
    assert_eq!(expect, result);
}

#[test]
fn test_empty_input_returns_empty_collections() {
    let data = sample();
    let hans = "";
    let p = pinyin::pinyin(&data, hans, &Args::new());
    let lp = lazy_pinyin(&data, hans, &Args::new());
    assert!(p.is_empty(), "pinyin() on empty input should be empty, got {:?}", p);
    assert!(lp.is_empty(), "lazy_pinyin() on empty input should be empty, got {:?}", lp);
}

#[test]
fn test_only_non_chinese_characters_produce_empty_inner_vectors() {
    let data = sample();
    let hans = "abc123!? ";
    let expect: Vec<Vec<String>> = hans.chars().map(|_| Vec::<String>::new()).collect();
    let result = pinyin::pinyin(&data, hans, &Args::new());
    assert_eq!(expect, result, "Each non-Chinese char should map to empty possible readings.");

    let lazy = lazy_pinyin(&data, hans, &Args::new());
    assert!(lazy.is_empty(), "lazy_pinyin should skip non-Chinese characters entirely.");
}

#[test]
fn test_whitespace_and_punctuation_handling() {
    let data = sample();
    let hans = "你，好！";
    let args = Args::new();
    let result = pinyin::pinyin(&data, hans, &args);
    let expect: Vec<Vec<String>> =
        vec![vec!["ni".to_string()], vec![], vec!["hao".to_string()], vec![]];
    assert_eq!(expect, result);

    let lazy = lazy_pinyin(&data, hans, &args);
    let expect_lazy = vec!["ni".to_string(), "hao".to_string()];
    assert_eq!(expect_lazy, lazy);
}

#[test]
fn test_styles_for_nihao_across_common_variants() {
    let data = sample();
    let hans = "你好";
    let cases: Vec<(Style, [&str; 2])> = vec![
        (Style::Normal, ["ni", "hao"]),
        (Style::Tone, ["nǐ", "hǎo"]),
        (Style::Tone2, ["ni3", "ha3o"]),
        (Style::Initials, ["n", "h"]),
        (Style::Finals, ["i", "ao"]),
        (Style::FinalsTone, ["ǐ", "ǎo"]),
        (Style::FinalsTone2, ["i3", "a3o"]),
    ];
    for (style, expected) in cases {
        let args = Args { style, heteronym: false };
        let nested: Vec<Vec<String>> =
            vec![vec![expected[0].to_string()], vec![expected[1].to_string()]];
        assert_eq!(nested, pinyin::pinyin(&data, hans, &args));
        let flat: Vec<String> = vec![expected[0].to_string(), expected[1].to_string()];
        assert_eq!(flat, lazy_pinyin(&data, hans, &args));
    }
}

#[test]
fn test_heteronym_false_returns_single_reading_even_when_multiple_exist() {
    let data = sample();
    let hans = "阿";
    let args = Args { style: Style::Normal, heteronym: false };
    let result = pinyin::pinyin(&data, hans, &args);
    assert_eq!(1, result.len());
    assert_eq!(1, result[0].len(), "heteronym=false should yield a single reading");
    let lazy = lazy_pinyin(&data, hans, &args);
    assert_eq!(vec![result[0][0].clone()], lazy);
}

#[test]
fn test_mixed_content_variants_and_length_invariants() {
    let data = sample();
    let hans = "中A文👋B字9";
    let args = Args::new();
    let all = pinyin::pinyin(&data, hans, &args);
    assert_eq!(hans.chars().count(), all.len(), "pinyin length mismatch");

    let only_chinese_lazy = lazy_pinyin(&data, hans, &args);
    let chinese_count = all.iter().filter(|v| !v.is_empty()).count();
    assert_eq!(
        chinese_count,
        only_chinese_lazy.len(),
        "lazy_pinyin should include only Chinese chars"
    );
}

#[test]
fn test_args_construction_with_heteronym_true() {
    let data = sample();
    let args = Args { style: Style::Normal, heteronym: true };
    assert_eq!(Style::Normal, args.style);
    assert!(args.heteronym);

    let res = pinyin::pinyin(&data, "阿", &args);
    assert_eq!(1, res.len());
    assert!(res[0].len() >= 1, "heteronym=true should allow multiple readings when present");
}

#[test]
fn test_surrogate_and_emoji_are_skipped_in_lazy_but_counted_as_empty_in_pinyin() {
    let data = sample();
    let hans = "你👀好";
    let args = Args::new();

    let full = pinyin::pinyin(&data, hans, &args);
    let expect: Vec<Vec<String>> = vec![vec!["ni".to_string()], vec![], vec!["hao".to_string()]];
    assert_eq!(expect, full);

    let lazy = lazy_pinyin(&data, hans, &args);
    assert_eq!(vec!["ni".to_string(), "hao".to_string()], lazy);
}

#[test]
fn lib_test_pinyin() {
    let data = sample();
    let hans = "中国人";
    let mut test_data = style_cases();
    test_data.push(TestCase::new(
        hans,
        Args { style: Style::Normal, heteronym: true },
        vec![vec!["zhong"], vec!["guo"], vec!["ren"]],
        vec!["zhong", "guo", "ren"],
    ));
    for case in &test_data {
        assert_eq!(case.result, pinyin::pinyin(&data, hans, &case.args));
        assert_eq!(case.lazy_result, lazy_pinyin(&data, hans, &case.args));
    }
}

#[test]
fn lib_test_non_chinese_pinyin() {
    let data = sample();
    let hans = "中国人abc你好";
    let expect: Vec<Vec<String>> = vec![
        vec!["zhong".to_string()],
        vec!["guo".to_string()],
        vec!["ren".to_string()],
        vec![],
        vec![],
        vec![],
        vec!["ni".to_string()],
        vec!["hao".to_string()],
    ];
    let result = pinyin::pinyin(&data, hans, &Args::new());
    assert_eq!(expect, result);
}

#[test]
fn lib_test_non_chinese_lazy_pinyin() {
    let data = sample();
    let hans = "中国人abc你好";
    let expect = vec![
        "zhong".to_string(),
        "guo".to_string(),
        "ren".to_string(),
        "ni".to_string(),
        "hao".to_string(),
    ];
    let result = lazy_pinyin(&data, hans, &Args::new());
    assert_eq!(expect, result);
}

#[test]
fn lib_test_new_args() {
    let args = Args::new();
    assert_eq!(Style::Normal, args.style);
    assert_eq!(false, args.heteronym);
}

#[test]
fn mapping_plain_and_first_letter_and_placeholder() {
    let data = sample();
    let s = "中国A";
    let plain =
        each(&data, s).into_iter().map(|p| p.map_or("-", Pinyin::plain)).collect::<Vec<_>>();
    assert_eq!(plain, vec!["zhong", "guo", "-"], "plain mapping mismatch");

    let first = each(&data, s)
        .into_iter()
        .map(|p| p.map_or("-", Pinyin::first_letter))
        .collect::<Vec<_>>();
    assert_eq!(first, vec!["z", "g", "-"], "first letter mapping mismatch");
}

#[test]
fn mapping_with_tone_known_chars() {
    let data = sample();
    let s = "中国";
    let tone =
        each(&data, s).into_iter().map(|p| p.map_or("-", Pinyin::with_tone)).collect::<Vec<_>>();
    assert_eq!(tone, vec!["zhōng", "guó"], "tone mapping mismatch");
}

#[test]
fn mapping_with_tone_num_known_chars() {
    let data = sample();
    let s = "中国";
    let tone = each(&data, s)
        .into_iter()
        .map(|p| p.map_or("-", Pinyin::with_tone_num))
        .collect::<Vec<_>>();
    assert_eq!(tone, vec!["zho1ng", "guo2"], "tone-num mapping mismatch");
}

#[test]
fn mapping_with_tone_num_end_known_chars() {
    let data = sample();
    let s = "中国";
    let tone = each(&data, s)
        .into_iter()
        .map(|p| p.map_or("-", Pinyin::with_tone_num_end))
        .collect::<Vec<_>>();
    assert_eq!(tone, vec!["zhong1", "guo2"], "tone-num-end mapping mismatch");
}

#[test]
fn char_without_pinyin_returns_none() {
    let data = sample();
    let none = '🙂'.to_pinyin_multi(&data);
    assert!(none.is_none(), "Expected None for emoji without pinyin");
}

#[test]
fn char_with_multiple_pronunciations_count_is_correct() {
    let data = sample();
    let m = multi_of(&data, '还');
    assert_eq!(m.count(), 3, "Expected three pronunciations for '还'");
}

#[test]
fn get_opt_boundaries_for_multi_pronunciation_char() {
    let data = sample();
    let m = multi_of(&data, '还');
    assert!(m.get_opt(0).is_some());
    assert!(m.get_opt(1).is_some());
    assert!(m.get_opt(2).is_some());
    assert!(m.get_opt(3).is_none());
}

#[test]
fn iterator_yields_exact_number_then_none_repeatedly() {
    let data = sample();
    let mut it = multi_of(&data, '还').into_iter();
    assert!(it.next().is_some());
    assert!(it.next().is_some());
    assert!(it.next().is_some());
    assert!(it.next().is_none());
    assert!(it.next().is_none());
    assert!(it.next().is_none());
}

#[test]
fn into_iter_can_be_reused_because_pinyinmulti_is_copy() {
    let data = sample();
    let m = multi_of(&data, '子');
    let v1 = all_of(m);
    let v2 = all_of(m);
    assert_eq!(v1.len(), 2);
    assert_eq!(v2.len(), 2);
}

#[test]
fn get_opt_with_extremely_large_index_returns_none() {
    let data = sample();
    let m = multi_of(&data, '子');
    assert!(m.get_opt(usize::MAX).is_none());
}

#[test]
fn str_iterator_emits_none_for_non_han_and_some_for_han() {
    let data = sample();
    let mut it = "🙂还A".to_pinyin_multi(&data);
    let first = it.next();
    let second = it.next();
    let third = it.next();

    assert!(first.is_some());
    assert!(first.unwrap().is_none(), "Emoji should map to None");

    assert!(second.is_some());
    assert!(second.unwrap().is_some(), "'还' should map to Some(PinyinMulti)");

    assert!(third.is_some());
    assert!(third.unwrap().is_none(), "'A' should map to None");
    assert!(it.next().is_none());
}

#[test]
#[should_panic]
fn get_panics_when_index_equals_count() {
    let data = sample();
    multi_of(&data, '还').get(3);
}

#[test]
fn char_hai_has_expected_tone_strings_and_order() {
    let data = sample();
    let tones =
        all_of(multi_of(&data, '还')).into_iter().map(Pinyin::with_tone).collect::<Vec<_>>();
    assert_eq!(tones, vec!["hái", "huán", "fú"]);
}

#[test]
fn copy_semantics_allow_replaying_iteration_to_same_results() {
    let data = sample();
    let m = multi_of(&data, '子');
    let a = all_of(m).into_iter().map(Pinyin::with_tone).collect::<Vec<_>>();
    let b = all_of(m).into_iter().map(Pinyin::with_tone).collect::<Vec<_>>();
    assert_eq!(a, b);
    assert_eq!(a, vec!["zi", "zǐ"]);
}

#[test]
fn str_iterator_with_filtering_none_and_flattening() {
    let data = sample();
    let flattened = each_multi(&data, "🙂还A")
        .into_iter()
        .filter_map(|opt| opt)
        .flat_map(|m| all_of(m).into_iter().map(Pinyin::with_tone))
        .collect::<Vec<_>>();
    assert_eq!(flattened, vec!["hái", "huán", "fú"]);
}

fn list_all_heteronym<'d>(data: &'d Dataset, ch: char) -> Vec<&'d str> {
    all_of(ch.to_pinyin_multi(data).unwrap())
        .into_iter()
        .map(|pinyin| pinyin.with_tone_num_end())
        .collect::<Vec<_>>()
}

#[test]
fn special_pinyin() {
    let data = sample();
    assert_eq!(
        list_all_heteronym(&data, '欸'),
        &["ai1", "ai3", "ê1", "ê2", "ê3", "ê4", "xie4", "ei2", "ei3", "ei4", "ei1"],
    );
    assert_eq!(list_all_heteronym(&data, '嘸'), &["fu3", "wu3", "m1", "m2"]);
    assert_eq!(list_all_heteronym(&data, '呣'), &["m2", "m4", "mou2"]);
}

#[test]
fn to_pinyin_vec_of_every_style() {
    let data = sample();
    assert_eq!(to_pinyin_vec(&data, "拼音", Pinyin::plain), vec!["pin", "yin"]);
    assert_eq!(to_pinyin_vec(&data, "拼音", Pinyin::with_tone), vec!["pīn", "yīn"]);
    assert_eq!(to_pinyin_vec(&data, "拼音", Pinyin::with_tone_num), vec!["pi1n", "yi1n"]);
    assert_eq!(to_pinyin_vec(&data, "拼音", Pinyin::with_tone_num_end), vec!["pin1", "yin1"]);
    assert_eq!(to_pinyin_vec(&data, "拼音", Pinyin::first_letter), vec!["p", "y"]);
    assert_eq!(to_pinyin_vec(&data, "中国", Pinyin::first_letter), vec!["z", "g"]);
    assert_eq!(to_pinyin_vec(&data, "安心", Pinyin::first_letter), vec!["a", "x"]);
    assert_eq!(to_pinyin_vec(&data, "a拼b音c", Pinyin::plain), vec!["pin", "yin"]);
}

#[test]
fn three_characters_in_three_renderings() {
    let data = sample();
    assert_eq!(to_pinyin_vec(&data, "中国人", Pinyin::plain), vec!["zhong", "guo", "ren"]);
    assert_eq!(to_pinyin_vec(&data, "中国人", Pinyin::with_tone), vec!["zhōng", "guó", "rén"]);
    assert_eq!(
        to_pinyin_vec(&data, "中国人", Pinyin::with_tone_num_end),
        vec!["zhong1", "guo2", "ren2"]
    );
}

#[test]
fn hai_in_heteronym_mode() {
    let data = sample();
    let multi = '还'.to_pinyin_multi(&data).unwrap();
    assert_eq!(multi.count(), 3);
    let tones = all_of(multi).into_iter().map(Pinyin::with_tone).collect::<Vec<_>>();
    assert_eq!(tones, vec!["hái", "huán", "fú"]);
    assert!(multi.get_opt(3).is_none());
}

#[test]
fn first_of_all_is_the_primary_one() {
    let data = sample();
    for ch in "还没子中重好".chars() {
        let multi = ch.to_pinyin_multi(&data).unwrap();
        assert!(multi.count() > 1);
        let primary = ch.to_pinyin(&data).unwrap();
        assert_eq!(multi.get(0).with_tone(), primary.with_tone());
        assert_eq!(multi.get_opt(0).unwrap().with_tone_num(), primary.with_tone_num());
    }
}

#[test]
fn known_word_overrides_the_default() {
    let data = sample();
    assert_eq!('重'.to_pinyin(&data).unwrap().with_tone(), "zhòng");
    assert_eq!(words(&data, &["重新"]), vec![Some(vec!["chóng", "xīn"])]);
}

#[test]
fn phrase_lookup_is_exact() {
    let data = sample();
    // one character differs from the known word: every character is read by itself
    assert_eq!(words(&data, &["重心"]), vec![Some(vec!["zhòng", "xīn"])]);
    assert_eq!(words(&data, &["便宜人"]), vec![Some(vec!["biàn", "yí", "rén"])]);
    // a known word as part of a longer or shorter one is not found
    assert_eq!(words(&data, &["便宜从"]), vec![Some(vec!["biàn", "yí", "cóng"])]);
    assert_eq!(words(&data, &["不便宜"]), vec![Some(vec!["bù", "biàn", "yí"])]);
}

#[test]
fn absence_keeps_its_place() {
    let data = sample();
    assert!('a'.to_pinyin(&data).is_none());
    assert!('🙂'.to_pinyin(&data).is_none());
    let got =
        each(&data, "你🙂好").into_iter().map(|p| p.map(Pinyin::with_tone)).collect::<Vec<_>>();
    assert_eq!(got, vec![Some("nǐ"), None, Some("hǎo")]);
    let word = word_to_pinyin(&data, "你a好人");
    let got = word.into_iter().map(|p| p.map(Pinyin::plain)).collect::<Vec<_>>();
    assert_eq!(got, vec![Some("ni"), None, Some("hao"), Some("ren")]);
}

#[test]
fn words_longer_than_any_known_word() {
    let data = sample();
    assert_eq!(data.max_phrase_length(), 4);
    let got = word_to_pinyin(&data, "便宜从事人");
    let got = got.into_iter().map(|p| p.map(Pinyin::with_tone)).collect::<Vec<_>>();
    assert_eq!(got, vec![Some("biàn"), Some("yí"), Some("cóng"), Some("shì"), Some("rén")]);
    assert!(word_to_pinyin(&data, "").is_empty());
}

#[test]
fn plain_is_ascii() {
    let data = sample();
    for entry in entries() {
        let multi = entry.code.to_pinyin_multi(&data).unwrap();
        for p in all_of(multi) {
            assert!(!p.plain().is_empty());
            assert!(p.plain().chars().all(|c| c.is_ascii_lowercase()), "{}", p.plain());
        }
    }
    assert_eq!('绿'.to_pinyin(&data).unwrap().plain(), "lv");
    assert_eq!('略'.to_pinyin(&data).unwrap().plain(), "lve");
    assert_eq!('略'.to_pinyin(&data).unwrap().with_tone_num(), "lüe4");
    assert_eq!('女'.to_pinyin(&data).unwrap().plain(), "nv");
    assert_eq!('女'.to_pinyin(&data).unwrap().with_tone_num_end(), "nü3");
    let ei = '欸'.to_pinyin_multi(&data).unwrap().get(3);
    assert_eq!((ei.with_tone(), ei.plain(), ei.with_tone_num_end()), ("ế", "e", "ê2"));
}

fn has_tone(toned: &str) -> bool {
    toned.chars().any(|c| "āáǎàēéěèếềōóǒòīíǐìūúǔùǘǚǜńňǹḿ\u{304}\u{30c}\u{300}".contains(c))
}

fn in_ascii(letters: &str) -> String {
    letters.chars().map(|c| if c == 'ü' { 'v' } else if c == 'ê' { 'e' } else { c }).collect()
}

#[test]
fn numbered_renderings_hold_one_digit() {
    let data = sample();
    for entry in entries() {
        for p in all_of(entry.code.to_pinyin_multi(&data).unwrap()) {
            let toned = has_tone(p.with_tone());
            for numbered in [p.with_tone_num(), p.with_tone_num_end()] {
                let digits = numbered.chars().filter(|c| c.is_ascii_digit()).count();
                assert_eq!(digits, if toned { 1 } else { 0 }, "{numbered}");
                let rest: String = numbered.chars().filter(|c| !c.is_ascii_digit()).collect();
                assert_eq!(in_ascii(&rest), p.plain());
            }
            if toned {
                let last = p.with_tone_num_end().chars().last().unwrap();
                assert!(('1'..='4').contains(&last));
            }
        }
    }
    assert_eq!('的'.to_pinyin(&data).unwrap().with_tone_num(), "de");
    assert_eq!('的'.to_pinyin(&data).unwrap().with_tone_num_end(), "de");
}

#[test]
fn initials_and_finals_make_up_the_plain_rendering() {
    let data = sample();
    for entry in entries() {
        for p in all_of(entry.code.to_pinyin_multi(&data).unwrap()) {
            assert_eq!(format!("{}{}", p.initials(), p.finals_plain()), p.plain());
        }
    }
    let zhong = '中'.to_pinyin(&data).unwrap();
    assert_eq!((zhong.initials(), zhong.finals_plain()), ("zh", "ong"));
    assert_eq!(zhong.finals_with_tone(), "ōng");
    assert_eq!(zhong.finals_with_tone_num(), "o1ng");
    let an = '安'.to_pinyin(&data).unwrap();
    assert_eq!((an.initials(), an.finals_plain()), ("", "an"));
    let ng = '嗯'.to_pinyin(&data).unwrap();
    assert_eq!((ng.plain(), ng.initials(), ng.finals_plain()), ("n", "n", ""));
    assert_eq!((ng.finals_with_tone(), ng.finals_with_tone_num()), ("", "2"));
    let nv = '女'.to_pinyin(&data).unwrap();
    assert_eq!((nv.initials(), nv.finals_plain(), nv.finals_with_tone()), ("n", "v", "ǚ"));
    assert_eq!((nv.finals_with_tone_num(), nv.first_letter()), ("ü3", "n"));
    let m = '呣'.to_pinyin_multi(&data).unwrap().get(1);
    assert_eq!((m.initials(), m.finals_plain(), m.finals_with_tone()), ("m", "", "\u{300}"));
    assert_eq!((m.finals_with_tone_num(), m.first_letter()), ("4", "m"));
}
