//! The pronunciation of one character, and the ways to ask a dataset for it:
//! for a character, for each character of a string, and for each word of a
//! text that the caller has cut into words.
use vstd::prelude::*;
use crate::data::{
    block_ok, code_of, get_block_and_index, phrase_entry_ok, slot_of, Dataset, PhraseEntry,
    PinyinData,
};
use crate::syllable::{
    digit_count, in_ascii, is_initial, lemma_one_tone_digit, lemma_plain_letters,
    lemma_rendering_lengths, lemma_split_in_renderings, tone_count, without_digits,
};

verus! {

/// The pronunciation of one character: a handle on a record of a dataset.
#[derive(Clone, Copy)]
pub struct Pinyin<'a>(pub &'a PinyinData);

impl<'a> Pinyin<'a> {
    /// The record is that of a syllable.
    pub open spec fn wf(self) -> bool {
        self.0.wf()
    }

    /// Without a tone, as in `pin`.
    pub fn plain(self) -> (s: &'a str)
        ensures
            s@ == self.0.plain@,
    {
        self.0.plain.as_str()
    }

    /// With the tone as a diacritic, as in `pīn`.
    pub fn with_tone(self) -> (s: &'a str)
        ensures
            s@ == self.0.with_tone@,
    {
        self.0.with_tone.as_str()
    }

    /// With the tone as a digit behind the letter that carries it, as in `pi1n`.
    pub fn with_tone_num(self) -> (s: &'a str)
        ensures
            s@ == self.0.with_tone_num@,
    {
        self.0.with_tone_num.as_str()
    }

    /// With the tone as a digit at the end, as in `pin1`.
    pub fn with_tone_num_end(self) -> (s: &'a str)
        ensures
            s@ == self.0.with_tone_num_end@,
    {
        self.0.with_tone_num_end.as_str()
    }

    /// The first letter of the plain rendering, as in `p`.
    pub fn first_letter(self) -> (s: &'a str)
        requires
            self.wf(),
        ensures
            s@ == self.0.plain@.take(1),
    {
        proof {
            lemma_rendering_lengths(self.0.with_tone@);
        }
        self.0.plain.as_str().substring_char(0, 1)
    }

    /// The initial: the consonants that open the syllable, as in `p`, or
    /// nothing where the syllable opens with its final.
    pub fn initials(self) -> (s: &'a str)
        requires
            self.wf(),
        ensures
            s@ == self.0.plain@.take(self.0.split as int),
    {
        proof {
            lemma_split_in_renderings(self.0.with_tone@);
        }
        self.0.plain.as_str().substring_char(0, self.0.split)
    }

    /// The final without a tone, as in `in`.
    pub fn finals_plain(self) -> (s: &'a str)
        requires
            self.wf(),
        ensures
            s@ == self.0.plain@.skip(self.0.split as int),
    {
        proof {
            lemma_split_in_renderings(self.0.with_tone@);
        }
        let plain = self.0.plain.as_str();
        plain.substring_char(self.0.split, plain.unicode_len())
    }

    /// The final with the tone as a diacritic, as in `īn`.
    pub fn finals_with_tone(self) -> (s: &'a str)
        requires
            self.wf(),
        ensures
            s@ == self.0.with_tone@.skip(self.0.split as int),
    {
        proof {
            lemma_split_in_renderings(self.0.with_tone@);
        }
        let toned = self.0.with_tone.as_str();
        toned.substring_char(self.0.split, toned.unicode_len())
    }

    /// The final with the tone as a digit behind its letter, as in `i1n`.
    pub fn finals_with_tone_num(self) -> (s: &'a str)
        requires
            self.wf(),
        ensures
            s@ == self.0.with_tone_num@.skip(self.0.split as int),
    {
        proof {
            lemma_split_in_renderings(self.0.with_tone@);
        }
        let numbered = self.0.with_tone_num.as_str();
        numbered.substring_char(self.0.split, numbered.unicode_len())
    }
}

impl Dataset {
    /// The primary pronunciation of `ch`, where the dataset has one.
    pub open spec fn pinyin<'d>(&'d self, ch: char) -> Option<Pinyin<'d>> {
        if self.covers(ch) {
            Some(Pinyin(&self.records[self.record_index(ch) as int]))
        } else {
            None
        }
    }

    /// The primary pronunciation of each character of `text`, in place.
    pub open spec fn pinyin_each<'d>(&'d self, text: Seq<char>) -> Seq<Option<Pinyin<'d>>> {
        Seq::new(text.len(), |i: int| self.pinyin(text[i]))
    }

    /// The pronunciations of the characters of `text` that have one, in order.
    pub open spec fn pinyin_known<'d>(&'d self, text: Seq<char>) -> Seq<Pinyin<'d>>
        decreases text.len(),
    {
        if text.len() == 0 {
            Seq::empty()
        } else {
            match self.pinyin(text.last()) {
                Some(p) => self.pinyin_known(text.drop_last()).push(p),
                None => self.pinyin_known(text.drop_last()),
            }
        }
    }

    /// The entry among the known words of the length of `word` that is
    /// `word`, character by character.
    pub open spec fn phrase_match(&self, word: Seq<char>) -> Option<int> {
        bucket_match(self.phrases@, word)
    }

    /// The toned form of each syllable of `word` as a known word.
    pub open spec fn phrase_readings(&self, word: Seq<char>) -> Option<Seq<Seq<char>>> {
        bucket_readings(self.records@, self.phrases@, word)
    }

    /// The pronunciation of `word` as a whole: that of the known word where it
    /// is one, else the primary pronunciation of each of its characters.
    pub open spec fn pinyin_word<'d>(&'d self, word: Seq<char>) -> Seq<Option<Pinyin<'d>>> {
        match self.phrase_match(word) {
            Some(e) => {
                let entry = self.phrases[word.len() as int][e];
                Seq::new(word.len(), |i: int| Some(Pinyin(&self.records[entry.pinyin[i] as int])))
            },
            None => self.pinyin_each(word),
        }
    }
}

/// The index, in the bucket of the words as long as `word`, of the entry
/// that is `word`, character by character: of several the last one.
pub open spec fn bucket_match(buckets: Seq<Vec<PhraseEntry>>, word: Seq<char>) -> Option<int> {
    let n = word.len() as int;
    if n < buckets.len() && exists|e: int|
        0 <= e < buckets[n].len() && (#[trigger] buckets[n][e]).phrase@ == word {
        Some(last_match(buckets[n]@, word))
    } else {
        None
    }
}

/// The toned form of each syllable that the buckets hold for `word`.
pub open spec fn bucket_readings(
    records: Seq<PinyinData>,
    buckets: Seq<Vec<PhraseEntry>>,
    word: Seq<char>,
) -> Option<Seq<Seq<char>>> {
    match bucket_match(buckets, word) {
        Some(e) => Some(
            Seq::new(
                word.len(),
                |i: int| records[buckets[word.len() as int][e].pinyin[i] as int].with_tone@,
            ),
        ),
        None => None,
    }
}

/// The greatest index of an entry of `bucket` whose phrase is `word`.
pub open spec fn last_match(bucket: Seq<PhraseEntry>, word: Seq<char>) -> int
    decreases bucket.len(),
{
    if bucket.len() == 0 {
        -1
    } else if bucket.last().phrase@ == word {
        bucket.len() - 1
    } else {
        last_match(bucket.drop_last(), word)
    }
}

/// `last_match` gives an entry whose phrase is the word, and behind it no
/// entry has that phrase; it gives -1 where no entry has it.
pub proof fn lemma_last_match(bucket: Seq<PhraseEntry>, word: Seq<char>)
    ensures
        -1 <= last_match(bucket, word) < bucket.len(),
        last_match(bucket, word) >= 0 ==> bucket[last_match(bucket, word)].phrase@ == word,
        forall|e: int|
            last_match(bucket, word) < e < bucket.len() ==> (#[trigger] bucket[e]).phrase@ != word,
    decreases bucket.len(),
{
    if bucket.len() > 0 && bucket.last().phrase@ != word {
        lemma_last_match(bucket.drop_last(), word);
        assert forall|e: int| last_match(bucket, word) < e < bucket.len() implies (
        #[trigger] bucket[e]).phrase@ != word by {
            if e < bucket.len() - 1 {
                assert(bucket.drop_last()[e] == bucket[e]);
            }
        }
    }
}

/// The initial and the final of a pronunciation make up its plain rendering.
pub proof fn lemma_initials_and_finals(p: Pinyin)
    requires
        p.wf(),
    ensures
        p.0.plain@.take(p.0.split as int) + p.0.plain@.skip(p.0.split as int) == p.0.plain@,
{
    lemma_split_in_renderings(p.0.with_tone@);
    assert(p.0.plain@.take(p.0.split as int) + p.0.plain@.skip(p.0.split as int) =~= p.0.plain@);
}

/// The initial of a pronunciation is the longest of the initials that its
/// plain rendering begins with: `zh` rather than `z`. It is empty where the
/// plain rendering begins with none.
pub proof fn lemma_initial_is_longest(p: Pinyin)
    requires
        p.wf(),
    ensures
        p.0.split <= p.0.plain@.len(),
        p.0.split > 0 ==> is_initial(p.0.plain@.take(p.0.split as int)),
        forall|n: int|
            p.0.split < n <= p.0.plain@.len() ==> !is_initial(#[trigger] p.0.plain@.take(n)),
{
}

/// Of a pronunciation with a tone each numbered rendering holds exactly one
/// digit. Without the digit, and with every letter in ASCII, it is the plain
/// rendering.
pub proof fn lemma_numbered_renderings(p: Pinyin)
    requires
        p.wf(),
        tone_count(p.0.with_tone@) == 1,
    ensures
        digit_count(p.0.with_tone_num@) == 1,
        digit_count(p.0.with_tone_num_end@) == 1,
        in_ascii(without_digits(p.0.with_tone_num@)) == p.0.plain@,
        in_ascii(without_digits(p.0.with_tone_num_end@)) == p.0.plain@,
        '1' <= p.0.with_tone_num_end@.last() <= '4',
{
    lemma_one_tone_digit(p.0.with_tone@);
}

/// What a dataset gives for a character is the record of a syllable.
pub proof fn lemma_pinyin_is_syllable(data: &Dataset, ch: char)
    requires
        data.wf(),
    ensures
        data.pinyin(ch) matches Some(p) ==> p.wf(),
        data.covers(ch) ==> data.heteronym_index(ch) < data.heteronyms.len(),
        data.record_index(ch) < data.records.len(),
{
    match slot_of(data.blocks@, code_of(ch)) {
        Some((b, k)) => {
            assert(data.blocks[b].holds(code_of(ch)));
            assert(block_ok(
                data.blocks[b],
                data.records.len() as int,
                data.heteronyms.len() as int,
            ));
            assert(data.blocks[b].data[k] < data.records.len());
            assert(data.blocks[b].heteronym[k] < data.heteronyms.len());
        },
        None => {},
    }
}

/// The plain rendering of a pronunciation is not empty, and made of ASCII
/// lower-case letters only.
pub proof fn lemma_plain_is_ascii(p: Pinyin)
    requires
        p.wf(),
    ensures
        p.0.plain@.len() > 0,
        forall|i: int| 0 <= i < p.0.plain@.len() ==> 'a' <= (#[trigger] p.0.plain@[i]) <= 'z',
{
    lemma_rendering_lengths(p.0.with_tone@);
    lemma_plain_letters(p.0.with_tone@);
}

/// The plain rendering of what a dataset gives for a character is not
/// empty, and made of ASCII lower-case letters only.
pub proof fn lemma_covered_plain_is_ascii(data: &Dataset, ch: char)
    requires
        data.wf(),
    ensures
        data.pinyin(ch) matches Some(p) ==> p.0.plain@.len() > 0 && forall|i: int|
            0 <= i < p.0.plain@.len() ==> 'a' <= (#[trigger] p.0.plain@[i]) <= 'z',
{
    lemma_pinyin_is_syllable(data, ch);
    if let Some(p) = data.pinyin(ch) {
        lemma_plain_is_ascii(p);
    }
}

/// A word is found among the known words only as the entry that is that
/// word: an entry that differs from it in a single character is not the one
/// that is found for it.
pub proof fn lemma_phrase_lookup_is_exact(data: &Dataset, word: Seq<char>, e: int, i: int)
    requires
        word.len() < data.phrases.len(),
        0 <= e < data.phrases[word.len() as int].len(),
        data.phrases[word.len() as int][e].phrase.len() == word.len(),
        0 <= i < word.len(),
        data.phrases[word.len() as int][e].phrase[i] != word[i],
    ensures
        data.phrase_match(word) != Some(e),
        data.phrase_match(word) matches Some(found) ==> {
            &&& 0 <= found < data.phrases[word.len() as int].len()
            &&& data.phrases[word.len() as int][found].phrase@ == word
        },
{
    lemma_last_match(data.phrases[word.len() as int]@, word);
}

/// Asks a dataset for the pronunciation of what `self` holds.
pub trait ToPinyin<'d> {
    type Output;

    /// Whether `out` is what the dataset says of `self`.
    spec fn answered(&self, data: &'d Dataset, out: Self::Output) -> bool;

    fn to_pinyin(&self, data: &'d Dataset) -> (out: Self::Output)
        requires
            data.wf(),
        ensures
            self.answered(data, out),
    ;
}

impl<'d> ToPinyin<'d> for char {
    type Output = Option<Pinyin<'d>>;

    open spec fn answered(&self, data: &'d Dataset, out: Option<Pinyin<'d>>) -> bool {
        &&& out == data.pinyin(*self)
        &&& out matches Some(p) ==> p.wf()
    }

    /// The primary pronunciation of the character, where the dataset has one.
    fn to_pinyin(&self, data: &'d Dataset) -> (out: Option<Pinyin<'d>>) {
        match get_block_and_index(data, *self) {
            None => None,
            Some((block, index)) => {
                let record = block.data[index];
                if record == 0 {
                    None
                } else {
                    Some(Pinyin(&data.records[record]))
                }
            },
        }
    }
}

/// The characters of `text`.
pub fn chars_of(text: &str) -> (chars: Vec<char>)
    ensures
        chars@ == text@,
{
    let mut chars: Vec<char> = Vec::new();
    for ch in it: text.chars()
        invariant
            it.seq() == text@,
            chars@ == text@.take(it.index() as int),
    {
        chars.push(ch);
    }
    assert(text@.take(text@.len() as int) == text@);
    chars
}

/// Walks over a string and gives the primary pronunciation of each character,
/// or `None` in its place.
pub struct PinyinStrIter<'d> {
    pub chars: Vec<char>,
    pub index: usize,
    pub data: &'d Dataset,
}

impl<'d> PinyinStrIter<'d> {
    pub open spec fn wf(&self) -> bool {
        &&& self.data.wf()
        &&& self.index <= self.chars.len()
    }

    /// The characters that are still to come.
    pub open spec fn remaining(&self) -> Seq<char> {
        self.chars@.skip(self.index as int)
    }

    /// The pronunciation of the next character, `Some(None)` where it has
    /// none, and `None` at the end of the string.
    pub fn next(&mut self) -> (item: Option<Option<Pinyin<'d>>>)
        requires
            old(self).wf(),
        ensures
            final(self).wf(),
            final(self).data == old(self).data,
            match item {
                Some(found) => {
                    &&& old(self).remaining().len() > 0
                    &&& found == old(self).data.pinyin(old(self).remaining()[0])
                    &&& found matches Some(p) ==> p.wf()
                    &&& final(self).remaining() == old(self).remaining().drop_first()
                },
                None => {
                    &&& old(self).remaining().len() == 0
                    &&& final(self).remaining() == old(self).remaining()
                },
            },
    {
        if self.index < self.chars.len() {
            let ch = self.chars[self.index];
            self.index = self.index + 1;
            assert(self.chars@.skip(self.index as int) =~= old(self).remaining().drop_first());
            Some(ch.to_pinyin(self.data))
        } else {
            None
        }
    }
}

impl<'a, 'd> ToPinyin<'d> for &'a str {
    type Output = PinyinStrIter<'d>;

    open spec fn answered(&self, data: &'d Dataset, out: PinyinStrIter<'d>) -> bool {
        &&& out.wf()
        &&& out.data == data
        &&& out.remaining() == self@
    }

    /// A walk over the characters of the string, from its first.
    fn to_pinyin(&self, data: &'d Dataset) -> (out: PinyinStrIter<'d>) {
        let out = PinyinStrIter { chars: chars_of(*self), index: 0, data };
        assert(out.chars@.skip(0) =~= out.chars@);
        out
    }
}

/// Whether two runs of characters are the same.
pub fn same_chars(a: &Vec<char>, b: &Vec<char>) -> (same: bool)
    ensures
        same == (a@ == b@),
{
    if a.len() != b.len() {
        return false;
    }
    let mut i: usize = 0;
    while i < a.len()
        invariant
            a.len() == b.len(),
            i <= a.len(),
            forall|k: int| 0 <= k < i ==> a[k] == b[k],
        decreases a.len() - i,
    {
        if a[i] != b[i] {
            return false;
        }
        i += 1;
    }
    assert(a@ =~= b@);
    true
}

/// Looks `word` up among the known words of its length: exactly, character
/// by character. Of two entries for one word the later one counts.
pub fn find_phrase<'d>(data: &'d Dataset, word: &Vec<char>) -> (found: Option<&'d PhraseEntry>)
    requires
        data.wf(),
    ensures
        match found {
            Some(entry) => {
                &&& data.phrase_match(word@) matches Some(e)
                &&& word.len() < data.phrases.len()
                &&& 0 <= e < data.phrases[word.len() as int].len()
                &&& *entry == data.phrases[word.len() as int][e]
                &&& entry.phrase@ == word@
            },
            None => data.phrase_match(word@) is None,
        },
{
    let n = word.len();
    if n >= data.phrases.len() {
        return None;
    }
    let bucket = &data.phrases[n];
    let mut e: usize = bucket.len();
    while e > 0
        invariant
            e <= bucket.len(),
            n == word.len(),
            n < data.phrases.len(),
            *bucket == data.phrases[n as int],
            forall|k: int| e <= k < bucket.len() ==> (#[trigger] bucket[k]).phrase@ != word@,
        decreases e,
    {
        e -= 1;
        if same_chars(&bucket[e].phrase, word) {
            proof {
                lemma_last_match(bucket@, word@);
            }
            return Some(&bucket[e]);
        }
    }
    None
}

/// The pronunciation of `word` as a whole: that of the known word where it is
/// one, else the primary pronunciation of each of its characters, with `None`
/// in the place of a character that has none.
pub fn word_to_pinyin<'d>(data: &'d Dataset, word: &str) -> (out: Vec<Option<Pinyin<'d>>>)
    requires
        data.wf(),
    ensures
        out@ == data.pinyin_word(word@),
        forall|i: int| 0 <= i < out.len() ==> ((#[trigger] out[i]) matches Some(p) ==> p.wf()),
{
    let chars = chars_of(word);
    let mut out: Vec<Option<Pinyin<'d>>> = Vec::new();
    match find_phrase(data, &chars) {
        Some(entry) => {
            proof {
                let n = word@.len() as int;
                let e = data.phrase_match(word@)->0;
                assert(phrase_entry_ok(data.phrases[n][e], n, data.records.len() as int));
            }
            let mut i: usize = 0;
            while i < entry.pinyin.len()
                invariant
                    data.wf(),
                    word@.len() < data.phrases.len(),
                    data.phrase_match(word@) matches Some(e) && 0 <= e
                        < data.phrases[word@.len() as int].len() && *entry
                        == data.phrases[word@.len() as int][e],
                    entry.pinyin.len() == word@.len(),
                    i <= entry.pinyin.len(),
                    out.len() == i,
                    forall|k: int|
                        0 <= k < i ==> (#[trigger] out[k]) == data.pinyin_word(word@)[k],
                    forall|k: int| 0 <= k < i ==> ((#[trigger] out[k]) matches Some(p) ==> p.wf()),
                decreases entry.pinyin.len() - i,
            {
                let record = entry.pinyin[i];
                proof {
                    let n = word@.len() as int;
                    let e = data.phrase_match(word@)->0;
                    assert(phrase_entry_ok(data.phrases[n][e], n, data.records.len() as int));
                    assert(data.is_record(data.phrases[n][e].pinyin[i as int]));
                }
                out.push(Some(Pinyin(&data.records[record])));
                i += 1;
            }
        },
        None => {
            let mut i: usize = 0;
            while i < chars.len()
                invariant
                    data.wf(),
                    data.phrase_match(word@) is None,
                    chars@ == word@,
                    i <= chars.len(),
                    out.len() == i,
                    forall|k: int|
                        0 <= k < i ==> (#[trigger] out[k]) == data.pinyin_word(word@)[k],
                    forall|k: int| 0 <= k < i ==> ((#[trigger] out[k]) matches Some(p) ==> p.wf()),
                decreases chars.len() - i,
            {
                out.push(chars[i].to_pinyin(data));
                i += 1;
            }
        },
    }
    assert(out@ =~= data.pinyin_word(word@));
    out
}

/// Walks over the words of a text and gives the pronunciation of each one.
pub struct PinyinPhraseIter<'a, 'd> {
    pub words: &'a [&'a str],
    pub index: usize,
    pub data: &'d Dataset,
}

/// The characters of each of `words`.
pub open spec fn texts(words: Seq<&str>) -> Seq<Seq<char>> {
    Seq::new(words.len(), |i: int| words[i]@)
}

impl<'a, 'd> PinyinPhraseIter<'a, 'd> {
    pub open spec fn wf(&self) -> bool {
        &&& self.data.wf()
        &&& self.index <= self.words@.len()
    }

    /// The words that are still to come.
    pub open spec fn remaining(&self) -> Seq<Seq<char>> {
        texts(self.words@).skip(self.index as int)
    }

    /// The pronunciation of the next word, and `None` behind the last one.
    pub fn next(&mut self) -> (item: Option<Vec<Option<Pinyin<'d>>>>)
        requires
            old(self).wf(),
        ensures
            final(self).wf(),
            final(self).data == old(self).data,
            match item {
                Some(found) => {
                    &&& old(self).remaining().len() > 0
                    &&& found@ == old(self).data.pinyin_word(old(self).remaining()[0])
                    &&& forall|i: int|
                        0 <= i < found.len() ==> ((#[trigger] found[i]) matches Some(p) ==> p.wf())
                    &&& final(self).remaining() == old(self).remaining().drop_first()
                },
                None => {
                    &&& old(self).remaining().len() == 0
                    &&& final(self).remaining() == old(self).remaining()
                },
            },
    {
        if self.index < self.words.len() {
            let word = self.words[self.index];
            self.index = self.index + 1;
            assert(texts(self.words@).skip(self.index as int) =~= old(
                self,
            ).remaining().drop_first());
            Some(word_to_pinyin(self.data, word))
        } else {
            None
        }
    }
}

impl<'a, 'd> ToPinyin<'d> for &'a [&'a str] {
    type Output = PinyinPhraseIter<'a, 'd>;

    open spec fn answered(&self, data: &'d Dataset, out: PinyinPhraseIter<'a, 'd>) -> bool {
        &&& out.wf()
        &&& out.data == data
        &&& out.remaining() == texts(self@)
    }

    /// A walk over the words, from the first.
    fn to_pinyin(&self, data: &'d Dataset) -> (out: PinyinPhraseIter<'a, 'd>) {
        let out = PinyinPhraseIter { words: *self, index: 0, data };
        assert(texts(out.words@).skip(0) =~= texts(out.words@));
        out
    }
}

} // verus!
