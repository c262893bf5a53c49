//! The tables that hold a pronunciation dataset, and what makes them well formed.
use vstd::prelude::*;
use crate::syllable::{
    check_syllable, is_syllable, plain_of, render_plain, render_tone_num, render_tone_num_end,
    split_of, split_offset, syllable_error, tone_num_end_of, tone_num_of, SyllableError,
};

verus! {

/// One syllable in all its renderings.
pub struct PinyinData {
    pub plain: String,
    pub with_tone: String,
    pub with_tone_num: String,
    pub with_tone_num_end: String,
    /// Where the final begins, counted in characters.
    pub split: usize,
}

impl PinyinData {
    /// The toned form is that of a syllable, and every other field is derived
    /// from it. The final begins where it begins in the plain rendering.
    pub open spec fn wf(&self) -> bool {
        &&& is_syllable(self.with_tone@)
        &&& self.plain@ == plain_of(self.with_tone@)
        &&& self.with_tone_num@ == tone_num_of(self.with_tone@)
        &&& self.with_tone_num_end@ == tone_num_end_of(self.with_tone@)
        &&& self.split == split_of(plain_of(self.with_tone@))
    }

    /// The record that stands for "no pronunciation".
    pub open spec fn is_sentinel(&self) -> bool {
        &&& self.plain@.len() == 0
        &&& self.with_tone@.len() == 0
        &&& self.with_tone_num@.len() == 0
        &&& self.with_tone_num_end@.len() == 0
        &&& self.split == 0
    }

    /// The record of the syllable whose toned form is `toned`.
    pub fn new(toned: &str) -> (made: Result<PinyinData, SyllableError>)
        ensures
            made is Ok <==> is_syllable(toned@),
            made matches Ok(record) ==> record.wf() && record.with_tone@ == toned@,
            made matches Err(e) ==> syllable_error(toned@) == Some(e),
    {
        match check_syllable(toned) {
            Err(e) => Err(e),
            Ok(()) => {
                let with_tone_num_end = match render_tone_num_end(toned) {
                    Some(s) => s,
                    None => {
                        return Err(SyllableError::SecondTone);
                    },
                };
                let plain = render_plain(toned);
                let split = split_offset(plain.as_str());
                Ok(
                    PinyinData {
                        plain,
                        with_tone: String::from_str(toned),
                        with_tone_num: render_tone_num(toned),
                        with_tone_num_end,
                        split,
                    },
                )
            },
        }
    }

    /// The record that stands for "no pronunciation".
    pub fn sentinel() -> (record: PinyinData)
        ensures
            record.is_sentinel(),
    {
        PinyinData {
            plain: String::new(),
            with_tone: String::new(),
            with_tone_num: String::new(),
            with_tone_num_end: String::new(),
            split: 0,
        }
    }
}

/// A run of consecutive code points, with one slot for each of them.
pub struct CharBlock {
    /// The code point of the first slot.
    pub start_code: u32,
    /// For each slot the index of its record, 0 where the code point has no pronunciation.
    pub data: Vec<usize>,
    /// For each slot the index of the list of its other pronunciations.
    pub heteronym: Vec<usize>,
}

impl CharBlock {
    /// The block has a slot, two indexes in each, and ends within the code points.
    pub open spec fn wf(&self) -> bool {
        &&& self.data.len() > 0
        &&& self.data.len() == self.heteronym.len()
        &&& self.start_code + self.data.len() <= 0x110000
    }

    /// The code point behind the last slot.
    pub open spec fn end_code(&self) -> int {
        self.start_code + self.data.len()
    }

    /// Whether the block has a slot for `code`.
    pub open spec fn holds(&self, code: u32) -> bool {
        self.start_code <= code < self.end_code()
    }
}

/// A known word and the record of each of its characters.
pub struct PhraseEntry {
    pub phrase: Vec<char>,
    pub pinyin: Vec<usize>,
}

/// The code point of a character.
pub open spec fn code_of(ch: char) -> u32 {
    ch as u32
}

/// Two characters with one code point are one character.
pub proof fn lemma_code_of(a: char, b: char)
    ensures
        code_of(a) == code_of(b) <==> a == b,
{
}

/// Blocks come in ascending order and do not overlap.
pub open spec fn blocks_ordered(blocks: Seq<CharBlock>) -> bool {
    forall|i: int, j: int|
        0 <= i < j < blocks.len() ==> (#[trigger] blocks[i]).end_code() <= (
        #[trigger] blocks[j]).start_code
}

/// The block that has a slot for `code`, and the slot's offset in it.
pub open spec fn slot_of(blocks: Seq<CharBlock>, code: u32) -> Option<(int, int)> {
    if exists|b: int| 0 <= b < blocks.len() && (#[trigger] blocks[b]).holds(code) {
        let b = choose|b: int| 0 <= b < blocks.len() && (#[trigger] blocks[b]).holds(code);
        Some((b, code - blocks[b].start_code))
    } else {
        None
    }
}

/// Among ordered blocks at most one has a slot for a given code point.
pub proof fn lemma_slot_unique(blocks: Seq<CharBlock>, code: u32, b: int)
    requires
        blocks_ordered(blocks),
        0 <= b < blocks.len(),
        blocks[b].holds(code),
    ensures
        slot_of(blocks, code) == Some((b, code - blocks[b].start_code)),
{
    let c = choose|c: int| 0 <= c < blocks.len() && (#[trigger] blocks[c]).holds(code);
    if c < b {
        assert(blocks[c].end_code() <= blocks[b].start_code);
    } else if b < c {
        assert(blocks[b].end_code() <= blocks[c].start_code);
    }
}

/// The first record stands for "no pronunciation", every other one is that of a syllable.
pub open spec fn records_ok(records: Seq<PinyinData>) -> bool {
    &&& records.len() > 0
    &&& records[0].is_sentinel()
    &&& forall|i: int| 1 <= i < records.len() ==> (#[trigger] records[i]).wf()
}

/// The blocks are in order, and every slot holds the index of a record, or
/// 0, and the index of a list.
pub open spec fn blocks_ok(blocks: Seq<CharBlock>, records: int, lists: int) -> bool {
    &&& blocks_ordered(blocks)
    &&& forall|b: int| 0 <= b < blocks.len() ==> block_ok(#[trigger] blocks[b], records, lists)
}

/// The block is well formed, and every slot of it holds the index of a
/// record, or 0, and the index of a list.
pub open spec fn block_ok(block: CharBlock, records: int, lists: int) -> bool {
    &&& block.wf()
    &&& forall|k: int| 0 <= k < block.data.len() ==> (#[trigger] block.data[k]) < records
    &&& forall|k: int| 0 <= k < block.heteronym.len() ==> (#[trigger] block.heteronym[k]) < lists
}

/// The first list is empty, and every list holds indexes of records with a pronunciation.
pub open spec fn lists_ok(lists: Seq<Vec<usize>>, records: int) -> bool {
    &&& lists.len() > 0
    &&& lists[0].len() == 0
    &&& forall|l: int|
        0 <= l < lists.len() ==> {
            &&& (#[trigger] lists[l]).len() < usize::MAX
            &&& forall|k: int| 0 <= k < lists[l].len() ==> 1 <= (#[trigger] lists[l][k]) < records
        }
}

/// An entry of the bucket at `n` is a word of `n` characters, two at least,
/// with the index of a record with a pronunciation for each of them.
pub open spec fn phrase_entry_ok(entry: PhraseEntry, n: int, records: int) -> bool {
    &&& n >= 2
    &&& entry.phrase.len() == n
    &&& entry.pinyin.len() == n
    &&& forall|k: int| 0 <= k < n ==> 1 <= (#[trigger] entry.pinyin[k]) < records
}

/// The bucket at `n` holds words of `n` characters. There is a bucket for
/// every length up to that of the longest word that can be known, which is 1
/// at least.
pub open spec fn phrases_ok(phrases: Seq<Vec<PhraseEntry>>, records: int) -> bool {
    &&& phrases.len() >= 2
    &&& forall|n: int, e: int|
        0 <= n < phrases.len() && 0 <= e < phrases[n].len() ==> phrase_entry_ok(
            #[trigger] phrases[n][e],
            n,
            records,
        )
}

/// A pronunciation dataset: the records of its syllables, the blocks that
/// lead from a code point to its records, the lists of other pronunciations,
/// and the known words, bucketed by their length.
pub struct Dataset {
    pub records: Vec<PinyinData>,
    pub blocks: Vec<CharBlock>,
    pub heteronyms: Vec<Vec<usize>>,
    /// `phrases[n]` holds the known words of `n` characters.
    pub phrases: Vec<Vec<PhraseEntry>>,
}

impl Dataset {
    /// Whether `index` is that of a record with a pronunciation.
    pub open spec fn is_record(&self, index: usize) -> bool {
        1 <= index < self.records.len()
    }

    /// The records are those of syllables, but for the first.
    pub open spec fn records_wf(&self) -> bool {
        records_ok(self.records@)
    }

    /// The blocks are in order, and their slots lead to records and lists.
    pub open spec fn blocks_wf(&self) -> bool {
        blocks_ok(self.blocks@, self.records.len() as int, self.heteronyms.len() as int)
    }

    /// The lists lead to records.
    pub open spec fn heteronyms_wf(&self) -> bool {
        lists_ok(self.heteronyms@, self.records.len() as int)
    }

    /// The known words lie in the bucket of their length and lead to records.
    pub open spec fn phrases_wf(&self) -> bool {
        phrases_ok(self.phrases@, self.records.len() as int)
    }

    /// The tables fit together: every index in them leads to something.
    pub open spec fn wf(&self) -> bool {
        &&& self.records_wf()
        &&& self.blocks_wf()
        &&& self.heteronyms_wf()
        &&& self.phrases_wf()
    }

    /// The index of the record of the primary pronunciation of `ch`, 0 where it has none.
    pub open spec fn record_index(&self, ch: char) -> usize {
        match slot_of(self.blocks@, code_of(ch)) {
            Some((b, k)) => self.blocks[b].data[k],
            None => 0,
        }
    }

    /// The index of the list of the other pronunciations of `ch`.
    pub open spec fn heteronym_index(&self, ch: char) -> usize {
        match slot_of(self.blocks@, code_of(ch)) {
            Some((b, k)) => self.blocks[b].heteronym[k],
            None => 0,
        }
    }

    /// Whether the dataset has a pronunciation for `ch`.
    pub open spec fn covers(&self, ch: char) -> bool {
        self.record_index(ch) != 0
    }

    /// The length of the longest word that the dataset can know: a longer
    /// one is always read character by character.
    pub open spec fn max_phrase_len(&self) -> int {
        self.phrases.len() - 1
    }

    /// The length of the longest word that the dataset can know.
    pub fn max_phrase_length(&self) -> (longest: usize)
        requires
            self.wf(),
        ensures
            longest == self.max_phrase_len(),
            longest >= 1,
    {
        self.phrases.len() - 1
    }
}

/// Finds the block that has a slot for `ch`, and the slot's offset in it.
pub fn get_block_and_index<'d>(data: &'d Dataset, ch: char) -> (found: Option<
    (&'d CharBlock, usize),
>)
    requires
        data.wf(),
    ensures
        match found {
            Some((block, index)) => {
                &&& slot_of(data.blocks@, code_of(ch)) matches Some((b, k))
                &&& *block == data.blocks[b]
                &&& index == k
            },
            None => slot_of(data.blocks@, code_of(ch)) is None,
        },
{
    let code = ch as u32;
    let mut b: usize = 0;
    while b < data.blocks.len()
        invariant
            data.wf(),
            code == ch as u32,
            b <= data.blocks.len(),
            forall|i: int| 0 <= i < b ==> !(#[trigger] data.blocks[i]).holds(code),
        decreases data.blocks.len() - b,
    {
        let block = &data.blocks[b];
        if code < block.start_code {
            proof {
                assert forall|i: int| 0 <= i < data.blocks.len() implies !(
                #[trigger] data.blocks[i]).holds(code) by {
                    if i > b {
                        assert(data.blocks[b as int].end_code() <= data.blocks[i].start_code);
                    }
                }
            }
            return None;
        }
        let index = (code - block.start_code) as usize;
        if index < block.data.len() {
            proof {
                lemma_slot_unique(data.blocks@, code, b as int);
            }
            return Some((block, index));
        }
        b += 1;
    }
    None
}

} // verus!
