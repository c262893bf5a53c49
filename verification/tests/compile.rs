use pinyin::partition::{partition, Slot, GAP_THRESHOLD};
use pinyin::{
    get_block_and_index, DataError, Dataset, Entry, Phrase, SyllableError, ToPinyin,
    ToPinyinMulti,
};

fn entry(code: char, syllables: &[&'static str]) -> Entry<'static> {
    Entry { code, syllables: syllables.to_vec() }
}

fn phrase(text: &'static str, syllables: &[&'static str]) -> Phrase<'static> {
    Phrase { text, syllables: syllables.to_vec() }
}

fn slot(code: u32, record: usize) -> Slot {
    Slot { code, record, list: 0 }
}

fn error_of(entries: Vec<Entry<'static>>, phrases: Vec<Phrase<'static>>) -> Option<DataError> {
    Dataset::compile(&entries, &phrases).err()
}

#[test]
fn the_empty_dataset() {
    let data = Dataset::empty();
    assert!('中'.to_pinyin(&data).is_none());
    assert!('中'.to_pinyin_multi(&data).is_none());
    assert!(get_block_and_index(&data, '中').is_none());
    let same = Dataset::compile(&vec![], &vec![]).ok().unwrap();
    assert_eq!(same.records.len(), 1);
    assert_eq!(same.blocks.len(), 0);
    assert_eq!(same.heteronyms.len(), 1);
    assert_eq!(same.phrases.len(), 2);
}

#[test]
fn tables_of_a_small_dataset() {
    let entries = vec![
        entry('中', &["zhōng", "zhòng"]),
        entry('丰', &["fēng"]),
        entry('重', &["zhòng", "chóng"]),
        entry('鼨', &["zhōng"]),
    ];
    let data = Dataset::compile(&entries, &vec![]).ok().unwrap();
    // a syllable has one record, whoever is read so
    let toned: Vec<&str> = data.records.iter().map(|r| r.with_tone.as_str()).collect();
    assert_eq!(toned, vec!["", "zhōng", "zhòng", "fēng", "chóng"]);
    // a character without other readings has the empty list, the first one
    assert_eq!(data.heteronyms, vec![vec![], vec![2], vec![4]]);
    // 中 and 丰 share a block, 重 and 鼨 lie further than the threshold from their neighbours
    assert_eq!(data.blocks.len(), 3);
    assert_eq!(data.blocks[0].start_code, '中' as u32);
    assert_eq!(data.blocks[0].data, vec![1, 0, 0, 3]);
    assert_eq!(data.blocks[0].heteronym, vec![1, 0, 0, 0]);
    assert_eq!((data.blocks[1].start_code, &data.blocks[1].data), ('重' as u32, &vec![2]));
    assert_eq!(data.blocks[1].heteronym, vec![2]);
    assert_eq!((data.blocks[2].start_code, &data.blocks[2].data), ('鼨' as u32, &vec![1]));
}

#[test]
fn block_and_index_of_a_character() {
    let entries = vec![entry('中', &["zhōng"]), entry('丰', &["fēng"]), entry('重', &["zhòng"])];
    let data = Dataset::compile(&entries, &vec![]).ok().unwrap();
    let (block, index) = get_block_and_index(&data, '丰').unwrap();
    assert_eq!((block.start_code, index), ('中' as u32, 3));
    // a gap inside a block has a slot, and nothing in it
    let (block, index) = get_block_and_index(&data, '丮').unwrap();
    assert_eq!((block.start_code, index, block.data[index]), ('中' as u32, 1, 0));
    assert!('丮'.to_pinyin(&data).is_none());
    let (block, index) = get_block_and_index(&data, '重').unwrap();
    assert_eq!((block.start_code, index), ('重' as u32, 0));
    // before the first block, between two blocks, behind the last one
    assert!(get_block_and_index(&data, 'a').is_none());
    assert!(get_block_and_index(&data, '丱').is_none());
    assert!(get_block_and_index(&data, '你').is_none());
    assert!(get_block_and_index(&data, '\u{10FFFF}').is_none());
}

#[test]
fn blocks_are_cut_at_the_threshold() {
    assert_eq!(GAP_THRESHOLD, 2048);
    let near = partition(&vec![slot(100, 1), slot(100 + 2048, 2)]);
    assert_eq!(near.len(), 1);
    assert_eq!(near[0].start_code, 100);
    assert_eq!(near[0].data.len(), 2049);
    assert_eq!((near[0].data[0], near[0].data[1], near[0].data[2048]), (1, 0, 2));
    let far = partition(&vec![slot(100, 1), slot(100 + 2049, 2)]);
    assert_eq!(far.len(), 2);
    assert_eq!((far[0].start_code, &far[0].data), (100, &vec![1]));
    assert_eq!((far[1].start_code, &far[1].data), (2149, &vec![2]));
    assert!(partition(&vec![]).is_empty());
    let last = partition(&vec![slot(0x10FFFF, 7)]);
    assert_eq!((last[0].start_code, &last[0].data), (0x10FFFF, &vec![7]));
}

#[test]
fn an_entry_without_a_syllable() {
    assert_eq!(error_of(vec![entry('中', &[])], vec![]), Some(DataError::NoReading));
}

#[test]
fn a_character_twice() {
    let twice = vec![entry('中', &["zhōng"]), entry('中', &["zhòng"])];
    assert_eq!(error_of(twice, vec![]), Some(DataError::Repeated));
    let apart = vec![entry('重', &["zhòng"]), entry('中', &["zhōng"]), entry('重', &["chóng"])];
    assert_eq!(error_of(apart, vec![]), Some(DataError::Repeated));
}

#[test]
fn entries_in_any_order() {
    let sorted = vec![
        entry('中', &["zhōng", "zhòng"]),
        entry('丰', &["fēng"]),
        entry('重', &["zhòng", "chóng"]),
        entry('鼨', &["zhōng"]),
    ];
    let mixed = vec![
        entry('重', &["zhòng", "chóng"]),
        entry('鼨', &["zhōng"]),
        entry('丰', &["fēng"]),
        entry('中', &["zhōng", "zhòng"]),
    ];
    let a = Dataset::compile(&sorted, &vec![]).ok().unwrap();
    let b = Dataset::compile(&mixed, &vec![]).ok().unwrap();
    let toned = |data: &Dataset| -> Vec<String> {
        data.records.iter().map(|r| r.with_tone.clone()).collect()
    };
    // the tables are those of the entries in the order of their characters
    assert_eq!(toned(&a), vec!["", "zhōng", "zhòng", "fēng", "chóng"]);
    assert_eq!(toned(&a), toned(&b));
    assert_eq!(a.heteronyms, b.heteronyms);
    assert_eq!(a.blocks.len(), b.blocks.len());
    for (x, y) in a.blocks.iter().zip(b.blocks.iter()) {
        assert_eq!((x.start_code, &x.data, &x.heteronym), (y.start_code, &y.data, &y.heteronym));
    }
    assert_eq!('重'.to_pinyin(&b).unwrap().with_tone(), "zhòng");
    assert_eq!('丰'.to_pinyin(&b).unwrap().with_tone(), "fēng");
    assert_eq!('中'.to_pinyin_multi(&b).unwrap().get(1).with_tone(), "zhòng");
}

#[test]
fn a_syllable_that_is_none() {
    for (syllable, error) in [
        ("zhong1", SyllableError::UnknownSymbol),
        ("", SyllableError::NoLetter),
        ("\u{30c}", SyllableError::NoLetter),
        ("zhōnǵ", SyllableError::UnknownSymbol),
        ("zhōǹg", SyllableError::SecondTone),
    ] {
        let first = vec![entry('中', &[syllable])];
        assert_eq!(error_of(first, vec![]), Some(DataError::Syllable(error)));
        let other = vec![entry('中', &["zhōng", syllable])];
        assert_eq!(error_of(other, vec![]), Some(DataError::Syllable(error)));
        let word = vec![phrase("中国", &["zhōng", syllable])];
        assert_eq!(error_of(vec![], word), Some(DataError::Syllable(error)));
    }
}

#[test]
fn a_word_of_the_wrong_length() {
    assert_eq!(error_of(vec![], vec![phrase("中", &["zhōng"])]), Some(DataError::PhraseLength));
    assert_eq!(error_of(vec![], vec![phrase("", &[])]), Some(DataError::PhraseLength));
    let short = vec![phrase("中国", &["zhōng"])];
    assert_eq!(error_of(vec![], short), Some(DataError::PhraseLength));
    let long = vec![phrase("中国", &["zhōng", "guó", "rén"])];
    assert_eq!(error_of(vec![], long), Some(DataError::PhraseLength));
}

#[test]
fn the_first_fault_is_reported() {
    let entries = vec![entry('中', &["zhōng"]), entry('丰', &["f1"]), entry('一', &[])];
    let phrases = vec![phrase("中", &[])];
    let found = error_of(entries, phrases);
    assert_eq!(found, Some(DataError::Syllable(SyllableError::UnknownSymbol)));
    let entries = vec![entry('中', &["zhōng"]), entry('一', &[])];
    assert_eq!(error_of(entries, vec![]), Some(DataError::NoReading));
    let entries = vec![entry('中', &["zhōng"]), entry('中', &["y1"])];
    assert_eq!(error_of(entries, vec![]), Some(DataError::Repeated));
    let entries = vec![entry('中', &["zhōng"]), entry('一', &["y1"]), entry('中', &["zhòng"])];
    let found = error_of(entries, vec![]);
    assert_eq!(found, Some(DataError::Syllable(SyllableError::UnknownSymbol)));
}

#[test]
fn words_in_buckets_by_length() {
    let phrases = vec![
        phrase("重新", &["chóng", "xīn"]),
        phrase("便宜从事", &["biàn", "yí", "cóng", "shì"]),
        phrase("便宜", &["pián", "yí"]),
    ];
    let data = Dataset::compile(&vec![], &phrases).ok().unwrap();
    let sizes: Vec<usize> = data.phrases.iter().map(|bucket| bucket.len()).collect();
    assert_eq!(sizes, vec![0, 0, 2, 0, 1]);
    assert_eq!(data.max_phrase_length(), 4);
    assert_eq!(Dataset::empty().max_phrase_length(), 1);
    assert_eq!(data.phrases[2][1].phrase, vec!['便', '宜']);
    assert_eq!(data.phrases[2][1].pinyin.len(), 2);
    // the words are known though no character is
    let word = pinyin::word_to_pinyin(&data, "便宜");
    let toned: Vec<&str> = word.iter().map(|p| p.unwrap().with_tone()).collect();
    assert_eq!(toned, vec!["pián", "yí"]);
    assert!(pinyin::word_to_pinyin(&data, "便宜从").iter().all(|p| p.is_none()));
}

#[test]
fn of_two_entries_for_a_word_the_later_counts() {
    let phrases = vec![
        phrase("朝阳", &["zhāo", "yáng"]),
        phrase("重新", &["chóng", "xīn"]),
        phrase("朝阳", &["cháo", "yáng"]),
    ];
    let data = Dataset::compile(&vec![], &phrases).ok().unwrap();
    let word = pinyin::word_to_pinyin(&data, "朝阳");
    let toned: Vec<&str> = word.iter().map(|p| p.unwrap().with_tone()).collect();
    assert_eq!(toned, vec!["cháo", "yáng"]);
}

#[test]
fn tables_that_fit_together() {
    let entries = vec![entry('中', &["zhōng", "zhòng"]), entry('国', &["guó"])];
    let phrases = vec![phrase("中国", &["zhōng", "guó"])];
    let data = Dataset::compile(&entries, &phrases).ok().unwrap();
    assert!(data.is_well_formed());
    assert!(Dataset::empty().is_well_formed());
    let again = Dataset::from_tables(data.records, data.blocks, data.heteronyms, data.phrases);
    let again = again.unwrap();
    assert_eq!('中'.to_pinyin(&again).unwrap().with_tone(), "zhōng");
    assert_eq!('中'.to_pinyin_multi(&again).unwrap().count(), 2);
}

fn small() -> Dataset {
    let entries = vec![entry('中', &["zhōng", "zhòng"]), entry('重', &["zhòng", "chóng"])];
    let phrases = vec![phrase("重新", &["chóng", "xīn"])];
    Dataset::compile(&entries, &phrases).ok().unwrap()
}

#[test]
fn records_that_do_not_fit() {
    let mut data = small();
    data.records[1].plain = "zhon".to_string();
    assert!(!data.is_well_formed());
    let mut data = small();
    data.records[1].with_tone_num = "zhong1".to_string();
    assert!(!data.is_well_formed());
    let mut data = small();
    data.records[1].with_tone_num_end = "zho1ng".to_string();
    assert!(!data.is_well_formed());
    let mut data = small();
    data.records[1].split = 1;
    assert!(!data.is_well_formed());
    let mut data = small();
    data.records[2].with_tone = "zhòng5".to_string();
    assert!(!data.is_well_formed());
    let mut data = small();
    data.records[0].split = 1;
    assert!(!data.is_well_formed());
    let mut data = small();
    data.records.clear();
    assert!(!data.is_well_formed());
}

#[test]
fn blocks_that_do_not_fit() {
    let mut data = small();
    data.blocks.swap(0, 1);
    assert!(!data.is_well_formed());
    let mut data = small();
    data.blocks[0].data[0] = data.records.len();
    assert!(!data.is_well_formed());
    let mut data = small();
    data.blocks[0].heteronym[0] = data.heteronyms.len();
    assert!(!data.is_well_formed());
    let mut data = small();
    data.blocks[0].heteronym.push(0);
    assert!(!data.is_well_formed());
    let mut data = small();
    data.blocks[1].start_code = data.blocks[0].start_code;
    assert!(!data.is_well_formed());
    let mut data = small();
    data.blocks[1].start_code = 0x110000;
    assert!(!data.is_well_formed());
    let mut data = small();
    data.blocks[1].data.clear();
    data.blocks[1].heteronym.clear();
    assert!(!data.is_well_formed());
}

#[test]
fn lists_and_words_that_do_not_fit() {
    let mut data = small();
    data.heteronyms[0].push(1);
    assert!(!data.is_well_formed());
    let mut data = small();
    data.heteronyms[1][0] = 0;
    assert!(!data.is_well_formed());
    let mut data = small();
    data.heteronyms[1][0] = data.records.len();
    assert!(!data.is_well_formed());
    let mut data = small();
    data.phrases[2][0].pinyin[1] = 0;
    assert!(!data.is_well_formed());
    let mut data = small();
    data.phrases[2][0].phrase.push('人');
    assert!(!data.is_well_formed());
    let mut data = small();
    let entry = data.phrases[2].pop().unwrap();
    data.phrases[1].push(entry);
    assert!(!data.is_well_formed());
    let mut data = small();
    data.phrases.truncate(1);
    assert!(!data.is_well_formed());
    let tables = small();
    let mut lists = tables.heteronyms;
    lists.clear();
    assert!(Dataset::from_tables(tables.records, tables.blocks, lists, tables.phrases).is_none());
}
