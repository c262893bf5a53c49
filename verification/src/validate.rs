//! Telling whether tables that were built elsewhere make up a dataset.
use vstd::prelude::*;
use crate::data::{
    block_ok, blocks_ok, lists_ok, phrase_entry_ok, phrases_ok, records_ok, CharBlock,
    Dataset, PhraseEntry, PinyinData,
};
use crate::syllable::{
    check_syllable, render_plain, render_tone_num, render_tone_num_end, split_offset,
};

verus! {

/// The block at `b` begins where the one before it ends, or behind.
pub open spec fn follows(blocks: Seq<CharBlock>, b: int) -> bool {
    blocks[b - 1].end_code() <= blocks[b].start_code
}

/// Each block ends where the next one begins, or before.
pub open spec fn neighbours_ordered(blocks: Seq<CharBlock>) -> bool {
    forall|b: int| 0 < b < blocks.len() ==> #[trigger] follows(blocks, b)
}

/// Blocks that are not empty and in order one after the other are in order all.
pub proof fn lemma_neighbours_ordered(blocks: Seq<CharBlock>, i: int, j: int)
    requires
        neighbours_ordered(blocks),
        forall|b: int| 0 <= b < blocks.len() ==> (#[trigger] blocks[b]).data.len() > 0,
        0 <= i < j < blocks.len(),
    ensures
        blocks[i].end_code() <= blocks[j].start_code,
    decreases j - i,
{
    assert(follows(blocks, j));
    if i + 1 < j {
        lemma_neighbours_ordered(blocks, i, j - 1);
        assert(blocks[j - 1].data.len() > 0);
    }
}

/// Whether every one of `indexes` is at least `low` and less than `high`.
pub fn all_within(indexes: &Vec<usize>, low: usize, high: usize) -> (all: bool)
    ensures
        all <==> forall|k: int| 0 <= k < indexes.len() ==> low <= (#[trigger] indexes[k]) < high,
{
    let mut k: usize = 0;
    while k < indexes.len()
        invariant
            k <= indexes.len(),
            forall|x: int| 0 <= x < k ==> low <= (#[trigger] indexes[x]) < high,
        decreases indexes.len() - k,
    {
        if indexes[k] < low || indexes[k] >= high {
            return false;
        }
        k += 1;
    }
    true
}

impl PinyinData {
    /// Whether the record is that of a syllable, with every rendering as it
    /// is derived from the toned form.
    pub fn is_well_formed(&self) -> (ok: bool)
        ensures
            ok == self.wf(),
    {
        let toned = self.with_tone.as_str();
        if check_syllable(toned).is_err() {
            return false;
        }
        if self.plain != render_plain(toned) {
            return false;
        }
        if self.with_tone_num != render_tone_num(toned) {
            return false;
        }
        match render_tone_num_end(toned) {
            None => {
                return false;
            },
            Some(numbered) => {
                if self.with_tone_num_end != numbered {
                    return false;
                }
            },
        }
        self.split == split_offset(self.plain.as_str())
    }

    /// Whether the record is the one that stands for "no pronunciation".
    pub fn is_empty(&self) -> (empty: bool)
        ensures
            empty == self.is_sentinel(),
    {
        self.plain.as_str().is_empty() && self.with_tone.as_str().is_empty()
            && self.with_tone_num.as_str().is_empty() && self.with_tone_num_end.as_str().is_empty()
            && self.split == 0
    }
}

/// Whether the first record stands for "no pronunciation" and every other
/// one is that of a syllable.
pub fn records_are_ok(records: &Vec<PinyinData>) -> (ok: bool)
    ensures
        ok == records_ok(records@),
{
    if records.len() == 0 || !records[0].is_empty() {
        return false;
    }
    let mut i: usize = 1;
    while i < records.len()
        invariant
            1 <= i <= records.len(),
            records[0].is_sentinel(),
            forall|k: int| 1 <= k < i ==> (#[trigger] records[k]).wf(),
        decreases records.len() - i,
    {
        if !records[i].is_well_formed() {
            assert(!records[i as int].wf());
            return false;
        }
        i += 1;
    }
    true
}

/// Whether the block is well formed and every slot of it leads somewhere.
pub fn block_is_ok(block: &CharBlock, records: usize, lists: usize) -> (ok: bool)
    ensures
        ok == block_ok(*block, records as int, lists as int),
{
    let len = block.data.len();
    if len == 0 || len != block.heteronym.len() || len > 0x110000 || block.start_code > 0x110000
        - (len as u32) {
        return false;
    }
    all_within(&block.data, 0, records) && all_within(&block.heteronym, 0, lists)
}

/// Whether the blocks are in order and every slot leads somewhere.
pub fn blocks_are_ok(blocks: &Vec<CharBlock>, records: usize, lists: usize) -> (ok: bool)
    ensures
        ok == blocks_ok(blocks@, records as int, lists as int),
{
    let mut b: usize = 0;
    while b < blocks.len()
        invariant
            b <= blocks.len(),
            forall|x: int| 0 < x < b ==> #[trigger] follows(blocks@, x),
            forall|x: int|
                0 <= x < b ==> block_ok(#[trigger] blocks[x], records as int, lists as int),
        decreases blocks.len() - b,
    {
        if !block_is_ok(&blocks[b], records, lists) {
            return false;
        }
        if b > 0 {
            let before = &blocks[b - 1];
            assert(block_ok(blocks[b - 1], records as int, lists as int));
            if before.start_code + (before.data.len() as u32) > blocks[b].start_code {
                assert(!(blocks[b - 1].end_code() <= blocks[b as int].start_code));
                return false;
            }
        }
        b += 1;
    }
    proof {
        assert forall|i: int, j: int| 0 <= i < j < blocks.len() implies (
        #[trigger] blocks[i]).end_code() <= (#[trigger] blocks[j]).start_code by {
            assert forall|x: int| 0 <= x < blocks.len() implies (#[trigger] blocks[x]).data.len()
                > 0 by {
                assert(block_ok(blocks[x], records as int, lists as int));
            }
            lemma_neighbours_ordered(blocks@, i, j);
        }
    }
    true
}

/// Whether the first list is empty and every list holds indexes of records with a pronunciation.
pub fn lists_are_ok(lists: &Vec<Vec<usize>>, records: usize) -> (ok: bool)
    ensures
        ok == lists_ok(lists@, records as int),
{
    if lists.len() == 0 || lists[0].len() != 0 {
        return false;
    }
    let mut l: usize = 0;
    while l < lists.len()
        invariant
            l <= lists.len(),
            lists.len() > 0,
            lists[0].len() == 0,
            forall|x: int|
                0 <= x < l ==> {
                    &&& (#[trigger] lists[x]).len() < usize::MAX
                    &&& forall|k: int|
                        0 <= k < lists[x].len() ==> 1 <= (#[trigger] lists[x][k]) < records
                },
        decreases lists.len() - l,
    {
        if lists[l].len() == usize::MAX {
            assert(!(lists[l as int].len() < usize::MAX));
            return false;
        }
        if !all_within(&lists[l], 1, records) {
            return false;
        }
        l += 1;
    }
    true
}

/// Whether `entry` may stand in the bucket at `n`.
pub fn entry_is_ok(entry: &PhraseEntry, n: usize, records: usize) -> (ok: bool)
    ensures
        ok == phrase_entry_ok(*entry, n as int, records as int),
{
    n >= 2 && entry.phrase.len() == n && entry.pinyin.len() == n && all_within(
        &entry.pinyin,
        1,
        records,
    )
}

/// Whether every bucket holds words of its length.
pub fn phrases_are_ok(phrases: &Vec<Vec<PhraseEntry>>, records: usize) -> (ok: bool)
    ensures
        ok == phrases_ok(phrases@, records as int),
{
    if phrases.len() < 2 {
        return false;
    }
    let mut n: usize = 0;
    while n < phrases.len()
        invariant
            n <= phrases.len(),
            phrases.len() >= 2,
            forall|x: int, e: int|
                0 <= x < n && 0 <= e < phrases[x].len() ==> phrase_entry_ok(
                    #[trigger] phrases[x][e],
                    x,
                    records as int,
                ),
        decreases phrases.len() - n,
    {
        let bucket = &phrases[n];
        let mut e: usize = 0;
        while e < bucket.len()
            invariant
                n < phrases.len(),
                *bucket == phrases[n as int],
                e <= bucket.len(),
                forall|y: int|
                    0 <= y < e ==> phrase_entry_ok(
                        #[trigger] phrases[n as int][y],
                        n as int,
                        records as int,
                    ),
            decreases bucket.len() - e,
        {
            if !entry_is_ok(&bucket[e], n, records) {
                assert(!phrase_entry_ok(phrases[n as int][e as int], n as int, records as int));
                return false;
            }
            e += 1;
        }
        n += 1;
    }
    true
}

impl Dataset {
    /// Whether the tables fit together.
    pub fn is_well_formed(&self) -> (ok: bool)
        ensures
            ok == self.wf(),
    {
        records_are_ok(&self.records) && blocks_are_ok(
            &self.blocks,
            self.records.len(),
            self.heteronyms.len(),
        ) && lists_are_ok(&self.heteronyms, self.records.len()) && phrases_are_ok(
            &self.phrases,
            self.records.len(),
        )
    }

    /// The dataset of tables that were built elsewhere, unless they do not fit together.
    pub fn from_tables(
        records: Vec<PinyinData>,
        blocks: Vec<CharBlock>,
        heteronyms: Vec<Vec<usize>>,
        phrases: Vec<Vec<PhraseEntry>>,
    ) -> (made: Option<Dataset>)
        ensures
            made is Some <==> (Dataset { records, blocks, heteronyms, phrases }).wf(),
            made matches Some(data) ==> data == (Dataset { records, blocks, heteronyms, phrases }),
    {
        let data = Dataset { records, blocks, heteronyms, phrases };
        if data.is_well_formed() {
            Some(data)
        } else {
            None
        }
    }
}

} // verus!
