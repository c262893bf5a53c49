//! Chinese characters to pinyin, over a dataset that the caller hands in.
//!
//! A [`Dataset`] holds, for every character it covers, the syllables the
//! character is read as, and the known words in which a character is read in
//! a way of its own. [`Dataset::compile`] builds one from plain entries. What
//! it says of a character is asked through [`ToPinyin`] and [`ToPinyinMulti`];
//! a text that is cut into words is asked word by word.
use vstd::prelude::*;

pub mod compat;
pub mod compile;
pub mod data;
pub mod integer_hasher;
pub mod partition;
pub mod phonetic_symbol;
pub mod pinyin;
pub mod pinyin_multi;
pub mod syllable;
pub mod validate;

pub use crate::compat::{lazy_pinyin, pinyin, Args, Style};
pub use crate::compile::{DataError, Entry, Phrase};
pub use crate::data::{get_block_and_index, CharBlock, Dataset, PhraseEntry, PinyinData};
pub use crate::integer_hasher::{IntegerHashMap, IntegerHasher};
pub use crate::pinyin::{word_to_pinyin, Pinyin, PinyinPhraseIter, PinyinStrIter, ToPinyin};
pub use crate::pinyin_multi::{PinyinMulti, PinyinMultiIter, PinyinMultiStrIter, ToPinyinMulti};
pub use crate::syllable::SyllableError;

verus! {

/// What `f` makes of the pronunciation of each character of `input` that
/// has one, in the order of the characters. A character without a
/// pronunciation is left out.
pub fn to_pinyin_vec<'d, F>(data: &'d Dataset, input: &str, f: F) -> (out: Vec<&'d str>) where
    F: Fn(Pinyin<'d>) -> &'d str,

    requires
        data.wf(),
        forall|p: Pinyin<'d>| p.wf() ==> call_requires(f, (p,)),
    ensures
        out.len() == data.pinyin_known(input@).len(),
        forall|i: int|
            0 <= i < out.len() ==> call_ensures(
                f,
                (data.pinyin_known(input@)[i],),
                #[trigger] out[i],
            ),
{
    let chars = crate::pinyin::chars_of(input);
    let mut out: Vec<&'d str> = Vec::new();
    let mut i: usize = 0;
    while i < chars.len()
        invariant
            data.wf(),
            chars@ == input@,
            i <= chars.len(),
            forall|p: Pinyin<'d>| p.wf() ==> call_requires(f, (p,)),
            out.len() == data.pinyin_known(input@.take(i as int)).len(),
            forall|k: int|
                0 <= k < out.len() ==> call_ensures(
                    f,
                    (data.pinyin_known(input@.take(i as int))[k],),
                    #[trigger] out[k],
                ),
        decreases chars.len() - i,
    {
        proof {
            assert(input@.take(i + 1).drop_last() =~= input@.take(i as int));
            assert(input@.take(i + 1).last() == input@[i as int]);
        }
        if let Some(p) = chars[i].to_pinyin(data) {
            out.push(f(p));
        }
        i += 1;
    }
    assert(input@.take(chars.len() as int) =~= input@);
    out
}

} // verus!
