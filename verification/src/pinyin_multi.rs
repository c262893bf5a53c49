//! All the pronunciations of a character: the primary one first, the others
//! in the order in which the dataset declares them.
use vstd::prelude::*;
use crate::data::{get_block_and_index, Dataset, PinyinData};
use crate::pinyin::{chars_of, Pinyin};

verus! {

/// The pronunciations of one character. The value is a handle on the tables
/// of a dataset: it can be copied freely, and walked over any number of times.
#[derive(Clone, Copy)]
pub struct PinyinMulti<'d> {
    pub first: &'d PinyinData,
    pub other_indexes: &'d Vec<usize>,
    pub data: &'d Dataset,
}

impl<'d> View for PinyinMulti<'d> {
    type V = Seq<Pinyin<'d>>;

    /// The pronunciations in order, the primary one first.
    open spec fn view(&self) -> Seq<Pinyin<'d>> {
        Seq::new(
            (self.other_indexes.len() + 1) as nat,
            |i: int|
                if i == 0 {
                    Pinyin(self.first)
                } else {
                    Pinyin(&self.data.records[self.other_indexes[i - 1] as int])
                },
        )
    }
}

impl<'d> PinyinMulti<'d> {
    pub open spec fn wf(self) -> bool {
        &&& self.data.wf()
        &&& self.first.wf()
        &&& self.other_indexes.len() < usize::MAX
        &&& forall|k: int|
            0 <= k < self.other_indexes.len() ==> self.data.is_record(
                #[trigger] self.other_indexes[k],
            )
    }

    /// How many pronunciations the character has.
    pub fn count(self) -> (n: usize)
        requires
            self.wf(),
        ensures
            n == self@.len(),
            n >= 1,
    {
        self.other_indexes.len() + 1
    }

    /// The pronunciation at `idx`, which must be less than the count.
    pub fn get(self, idx: usize) -> (p: Pinyin<'d>)
        requires
            self.wf(),
            idx < self@.len(),
        ensures
            p == self@[idx as int],
            p.wf(),
    {
        if idx == 0 {
            Pinyin(self.first)
        } else {
            let record = self.other_indexes[idx - 1];
            assert(self.data.is_record(self.other_indexes[idx - 1]));
            Pinyin(&self.data.records[record])
        }
    }

    /// The pronunciation at `idx`, or `None` where `idx` is not less than the count.
    pub fn get_opt(self, idx: usize) -> (p: Option<Pinyin<'d>>)
        requires
            self.wf(),
        ensures
            p == if idx < self@.len() {
                Some(self@[idx as int])
            } else {
                None
            },
            p matches Some(found) ==> found.wf(),
    {
        if idx == 0 {
            return Some(Pinyin(self.first));
        }
        if idx - 1 < self.other_indexes.len() {
            Some(self.get(idx))
        } else {
            None
        }
    }

    /// A walk over the pronunciations, from the primary one.
    pub fn into_iter(self) -> (iter: PinyinMultiIter<'d>)
        requires
            self.wf(),
        ensures
            iter.wf(),
            iter.inner == self,
            iter.index == 0,
            iter.remaining() == self@,
    {
        let iter = PinyinMultiIter { inner: self, index: 0 };
        assert(self@.skip(0) =~= self@);
        iter
    }
}

/// Walks over the pronunciations of one character.
pub struct PinyinMultiIter<'d> {
    pub inner: PinyinMulti<'d>,
    pub index: usize,
}

impl<'d> PinyinMultiIter<'d> {
    pub open spec fn wf(&self) -> bool {
        &&& self.inner.wf()
        &&& self.index <= self.inner@.len()
    }

    /// The pronunciations that are still to come.
    pub open spec fn remaining(&self) -> Seq<Pinyin<'d>> {
        self.inner@.skip(self.index as int)
    }

    /// The next pronunciation, and `None` behind the last one, however often it is asked.
    pub fn next(&mut self) -> (item: Option<Pinyin<'d>>)
        requires
            old(self).wf(),
        ensures
            final(self).wf(),
            final(self).inner == old(self).inner,
            match item {
                Some(p) => {
                    &&& old(self).remaining().len() > 0
                    &&& p == old(self).remaining()[0]
                    &&& p.wf()
                    &&& final(self).remaining() == old(self).remaining().drop_first()
                },
                None => {
                    &&& old(self).remaining().len() == 0
                    &&& final(self).remaining() == old(self).remaining()
                },
            },
    {
        let item = self.inner.get_opt(self.index);
        if item.is_some() {
            self.index = self.index + 1;
            assert(self.inner@.skip(self.index as int) =~= old(self).remaining().drop_first());
        }
        item
    }
}

impl Dataset {
    /// All the pronunciations of `ch`, where the dataset has any.
    pub open spec fn pinyin_multi<'d>(&'d self, ch: char) -> Option<PinyinMulti<'d>> {
        if self.covers(ch) {
            Some(
                PinyinMulti {
                    first: &self.records[self.record_index(ch) as int],
                    other_indexes: &self.heteronyms[self.heteronym_index(ch) as int],
                    data: self,
                },
            )
        } else {
            None
        }
    }
}

/// Asks a dataset for all the pronunciations of what `self` holds.
pub trait ToPinyinMulti<'d> {
    type Output;

    /// Whether `out` is what the dataset says of `self`.
    spec fn answered_multi(&self, data: &'d Dataset, out: Self::Output) -> bool;

    fn to_pinyin_multi(&self, data: &'d Dataset) -> (out: Self::Output)
        requires
            data.wf(),
        ensures
            self.answered_multi(data, out),
    ;
}

impl<'d> ToPinyinMulti<'d> for char {
    type Output = Option<PinyinMulti<'d>>;

    open spec fn answered_multi(&self, data: &'d Dataset, out: Option<PinyinMulti<'d>>) -> bool {
        &&& out == data.pinyin_multi(*self)
        &&& out matches Some(multi) ==> multi.wf()
    }

    /// All the pronunciations of the character, where the dataset has any.
    fn to_pinyin_multi(&self, data: &'d Dataset) -> (out: Option<PinyinMulti<'d>>) {
        match get_block_and_index(data, *self) {
            None => None,
            Some((block, index)) => {
                let record = block.data[index];
                if record == 0 {
                    None
                } else {
                    let list = block.heteronym[index];
                    Some(
                        PinyinMulti {
                            first: &data.records[record],
                            other_indexes: &data.heteronyms[list],
                            data,
                        },
                    )
                }
            },
        }
    }
}

/// Walks over a string and gives all the pronunciations of each character,
/// or `None` in its place.
pub struct PinyinMultiStrIter<'d> {
    pub chars: Vec<char>,
    pub index: usize,
    pub data: &'d Dataset,
}

impl<'d> PinyinMultiStrIter<'d> {
    pub open spec fn wf(&self) -> bool {
        &&& self.data.wf()
        &&& self.index <= self.chars.len()
    }

    /// The characters that are still to come.
    pub open spec fn remaining(&self) -> Seq<char> {
        self.chars@.skip(self.index as int)
    }

    /// The pronunciations of the next character, `Some(None)` where it has
    /// none, and `None` at the end of the string.
    pub fn next(&mut self) -> (item: Option<Option<PinyinMulti<'d>>>)
        requires
            old(self).wf(),
        ensures
            final(self).wf(),
            final(self).data == old(self).data,
            match item {
                Some(found) => {
                    &&& old(self).remaining().len() > 0
                    &&& found == old(self).data.pinyin_multi(old(self).remaining()[0])
                    &&& found matches Some(multi) ==> multi.wf()
                    &&& final(self).remaining() == old(self).remaining().drop_first()
                },
                None => {
                    &&& old(self).remaining().len() == 0
                    &&& final(self).remaining() == old(self).remaining()
                },
            },
    {
        if self.index < self.chars.len() {
            let ch = self.chars[self.index];
            self.index = self.index + 1;
            assert(self.chars@.skip(self.index as int) =~= old(self).remaining().drop_first());
            Some(ch.to_pinyin_multi(self.data))
        } else {
            None
        }
    }
}

impl<'a, 'd> ToPinyinMulti<'d> for &'a str {
    type Output = PinyinMultiStrIter<'d>;

    open spec fn answered_multi(&self, data: &'d Dataset, out: PinyinMultiStrIter<'d>) -> bool {
        &&& out.wf()
        &&& out.data == data
        &&& out.remaining() == self@
    }

    /// A walk over the characters of the string, from its first.
    fn to_pinyin_multi(&self, data: &'d Dataset) -> (out: PinyinMultiStrIter<'d>) {
        let out = PinyinMultiStrIter { chars: chars_of(*self), index: 0, data };
        assert(out.chars@.skip(0) =~= out.chars@);
        out
    }
}

/// The first of all the pronunciations of a character is its primary
/// pronunciation: what `to_pinyin` gives for it. A character has all its
/// pronunciations exactly where it has a primary one.
pub proof fn lemma_first_is_primary(data: &Dataset, ch: char)
    requires
        data.wf(),
    ensures
        data.pinyin_multi(ch) is Some <==> data.pinyin(ch) is Some,
        data.pinyin_multi(ch) matches Some(multi) ==> {
            &&& multi@.len() >= 1
            &&& Some(multi@[0]) == data.pinyin(ch)
        },
{
}

} // verus!
