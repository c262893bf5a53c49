//! Building the tables of a dataset from its entries: for each character the
//! list of its syllables, and for each known word the syllable of each of its
//! characters.
use vstd::prelude::*;
use crate::data::{
    block_ok, blocks_ok, blocks_ordered, code_of, lemma_code_of, lemma_slot_unique, lists_ok,
    phrase_entry_ok, phrases_ok, records_ok, Dataset, PhraseEntry, PinyinData,
};
use crate::partition::{
    ascending, in_one_block, lemma_slot_for_absent, lemma_slot_for_bounds,
    lemma_slot_for_present, lookup, partition, slot_for, Slot, GAP_THRESHOLD,
};
use crate::pinyin::{bucket_match, bucket_readings, chars_of, last_match, lemma_last_match, texts};
use crate::syllable::{check_syllable, is_syllable, syllable_error, SyllableError};

verus! {

/// A character and its pronunciations in their toned form, the primary one first.
pub struct Entry<'a> {
    pub code: char,
    pub syllables: Vec<&'a str>,
}

/// A known word and the pronunciation of each of its characters in its toned form.
pub struct Phrase<'a> {
    pub text: &'a str,
    pub syllables: Vec<&'a str>,
}

/// Why a dataset cannot be built from what was given.
#[derive(Clone, Copy, Debug, PartialEq, Eq, Structural)]
pub enum DataError {
    /// An entry has no syllable.
    NoReading,
    /// An entry is for a character that an entry before it is for.
    Repeated,
    /// A syllable is not one.
    Syllable(SyllableError),
    /// A word has fewer than two characters, or not one syllable for each of them.
    PhraseLength,
}

/// The first error that `at` gives for an index below `n`.
pub open spec fn first_error(n: nat, at: spec_fn(int) -> Option<DataError>) -> Option<DataError>
    decreases n,
{
    if n == 0 {
        None
    } else {
        match first_error((n - 1) as nat, at) {
            Some(e) => Some(e),
            None => at(n - 1),
        }
    }
}

/// Where no error is found, there is none at any index.
proof fn lemma_no_error(n: nat, at: spec_fn(int) -> Option<DataError>)
    requires
        first_error(n, at) is None,
    ensures
        forall|k: int| 0 <= k < n ==> (#[trigger] at(k)) is None,
    decreases n,
{
    if n > 0 {
        lemma_no_error((n - 1) as nat, at);
    }
}

/// An error that was found stays the first one, however far the search goes on.
pub proof fn lemma_first_error_stays(k: nat, n: nat, at: spec_fn(int) -> Option<DataError>)
    requires
        k <= n,
        first_error(k, at) is Some,
    ensures
        first_error(n, at) == first_error(k, at),
    decreases n,
{
    if k < n {
        lemma_first_error_stays(k, (n - 1) as nat, at);
    }
}

/// What is wrong with the syllable at an index of `list`.
pub open spec fn syllable_error_at(list: Seq<Seq<char>>) -> spec_fn(int) -> Option<DataError> {
    |i: int|
        match syllable_error(list[i]) {
            Some(e) => Some(DataError::Syllable(e)),
            None => None,
        }
}

/// What is wrong with the first syllable of `list` that is not one.
pub open spec fn list_error(list: Seq<Seq<char>>) -> Option<DataError> {
    first_error(list.len(), syllable_error_at(list))
}

/// Whether an entry before the one at `k` is for the same character.
pub open spec fn repeats<'a>(entries: Seq<Entry<'a>>, k: int) -> bool {
    exists|j: int|
        0 <= j < k && code_of((#[trigger] entries[j]).code) == code_of(entries[k].code)
}

/// What is wrong with the entry at an index of `entries`.
pub open spec fn entry_error_at<'a>(entries: Seq<Entry<'a>>) -> spec_fn(int) -> Option<
    DataError,
> {
    |k: int|
        if entries[k].syllables.len() == 0 {
            Some(DataError::NoReading)
        } else if repeats(entries, k) {
            Some(DataError::Repeated)
        } else {
            list_error(texts(entries[k].syllables@))
        }
}

/// The entry at `b` is the next behind the one at `a` in the order of the
/// code points: its character comes later, and that of no entry lies between.
pub open spec fn next_in_code<'a>(entries: Seq<Entry<'a>>, a: int, b: int) -> bool {
    &&& 0 <= a < entries.len()
    &&& 0 <= b < entries.len()
    &&& code_of(entries[a].code) < code_of(entries[b].code)
    &&& forall|c: int|
        0 <= c < entries.len() ==> !(code_of(entries[a].code) < code_of(
            (#[trigger] entries[c]).code,
        ) < code_of(entries[b].code))
}

/// What is wrong with the word at an index of `phrases`.
pub open spec fn phrase_error_at<'a>(phrases: Seq<Phrase<'a>>) -> spec_fn(int) -> Option<
    DataError,
> {
    |j: int|
        if phrases[j].text@.len() < 2 || phrases[j].syllables.len() != phrases[j].text@.len() {
            Some(DataError::PhraseLength)
        } else {
            list_error(texts(phrases[j].syllables@))
        }
}

/// The first thing that is wrong with what a dataset is to be built from:
/// with the first entry that has a fault or, where none has, with the first
/// such word.
pub open spec fn data_error<'a>(entries: Seq<Entry<'a>>, phrases: Seq<Phrase<'a>>) -> Option<
    DataError,
> {
    match first_error(entries.len(), entry_error_at(entries)) {
        Some(e) => Some(e),
        None => first_error(phrases.len(), phrase_error_at(phrases)),
    }
}

/// Everything of `old` is still there in `new`, at its place.
spec fn is_prefix<T>(old: Seq<T>, new: Seq<T>) -> bool {
    &&& old.len() <= new.len()
    &&& forall|i: int| 0 <= i < old.len() ==> #[trigger] new[i] == old[i]
}

/// No two records are those of one syllable.
pub open spec fn distinct_records(records: Seq<PinyinData>) -> bool {
    forall|i: int, j: int|
        0 <= i < j < records.len() ==> (#[trigger] records[i]).with_tone@ != (
        #[trigger] records[j]).with_tone@
}

/// No two lists hold the same indexes.
pub open spec fn distinct_lists(lists: Seq<Vec<usize>>) -> bool {
    forall|i: int, j: int|
        0 <= i < j < lists.len() ==> (#[trigger] lists[i])@ != (#[trigger] lists[j])@
}

/// Each of `indexes` is that of the record of the syllable at its place in `list`.
spec fn spells(
    records: Seq<PinyinData>,
    indexes: Seq<usize>,
    list: Seq<Seq<char>>,
) -> bool {
    &&& indexes.len() == list.len()
    &&& forall|i: int|
        0 <= i < indexes.len() ==> 1 <= #[trigger] indexes[i] < records.len()
            && records[indexes[i] as int].with_tone@ == list[i]
}

/// `slot` is the slot of `code`, and leads to the syllables of `readings`:
/// its record is that of the first one, its list holds those of the others.
spec fn slot_spells(
    records: Seq<PinyinData>,
    lists: Seq<Vec<usize>>,
    slot: Slot,
    code: u32,
    readings: Seq<Seq<char>>,
) -> bool {
    &&& slot.code == code
    &&& readings.len() > 0
    &&& 1 <= slot.record < records.len()
    &&& records[slot.record as int].with_tone@ == readings[0]
    &&& slot.list < lists.len()
    &&& spells(records, lists[slot.list as int]@, readings.skip(1))
}

/// What indexes spell, they go on spelling in tables that have grown.
proof fn lemma_spells_stays(
    old: Seq<PinyinData>,
    new: Seq<PinyinData>,
    indexes: Seq<usize>,
    list: Seq<Seq<char>>,
)
    requires
        is_prefix(old, new),
        spells(old, indexes, list),
    ensures
        spells(new, indexes, list),
{
    assert forall|i: int| 0 <= i < indexes.len() implies 1 <= #[trigger] indexes[i] < new.len()
        && new[indexes[i] as int].with_tone@ == list[i] by {
        assert(new[indexes[i] as int] == old[indexes[i] as int]);
    }
}

/// Where a slot leads, it goes on leading in tables that have grown.
proof fn lemma_slot_spells_stays(
    old: Seq<PinyinData>,
    new: Seq<PinyinData>,
    old_lists: Seq<Vec<usize>>,
    new_lists: Seq<Vec<usize>>,
    slot: Slot,
    code: u32,
    readings: Seq<Seq<char>>,
)
    requires
        is_prefix(old, new),
        is_prefix(old_lists, new_lists),
        slot_spells(old, old_lists, slot, code, readings),
    ensures
        slot_spells(new, new_lists, slot, code, readings),
{
    assert(new[slot.record as int] == old[slot.record as int]);
    assert(new_lists[slot.list as int] == old_lists[slot.list as int]);
    lemma_spells_stays(old, new, old_lists[slot.list as int]@, readings.skip(1));
}

/// The index of the record of the syllable `toned`, which is added to the
/// records where they do not hold it yet.
fn intern(records: &mut Vec<PinyinData>, toned: &str) -> (found: Result<usize, SyllableError>)
    requires
        records_ok(old(records)@),
    ensures
        records_ok(final(records)@),
        is_prefix(old(records)@, final(records)@),
        found is Ok <==> is_syllable(toned@),
        found matches Ok(index) ==> {
            &&& 1 <= index < final(records).len()
            &&& final(records)[index as int].with_tone@ == toned@
        },
        found matches Err(e) ==> syllable_error(toned@) == Some(e),
        distinct_records(old(records)@) ==> distinct_records(final(records)@),
{
    let wanted = String::from_str(toned);
    let mut i: usize = 1;
    while i < records.len()
        invariant
            1 <= i <= records.len(),
            records@ == old(records)@,
            records_ok(records@),
            wanted@ == toned@,
            forall|k: int| 1 <= k < i ==> (#[trigger] records[k]).with_tone@ != toned@,
        decreases records.len() - i,
    {
        if records[i].with_tone == wanted {
            return Ok(i);
        }
        i += 1;
    }
    match PinyinData::new(toned) {
        Ok(record) => {
            records.push(record);
            proof {
                if distinct_records(old(records)@) {
                    assert forall|a: int, b: int| 0 <= a < b < records.len() implies (
                    #[trigger] records[a]).with_tone@ != (#[trigger] records[b]).with_tone@ by {
                        if b < records.len() - 1 {
                            assert(old(records)[a].with_tone@ != old(records)[b].with_tone@);
                        } else if a == 0 {
                            assert(records[0].is_sentinel());
                        } else {
                            assert(old(records)[a].with_tone@ != toned@);
                        }
                    }
                }
            }
            Ok(records.len() - 1)
        },
        Err(e) => Err(e),
    }
}

/// The index of the record of each syllable of `list`.
fn intern_all(records: &mut Vec<PinyinData>, list: &Vec<&str>) -> (found: Result<
    Vec<usize>,
    SyllableError,
>)
    requires
        records_ok(old(records)@),
    ensures
        records_ok(final(records)@),
        is_prefix(old(records)@, final(records)@),
        found is Ok <==> list_error(texts(list@)) is None,
        found matches Ok(indexes) ==> spells(final(records)@, indexes@, texts(list@)),
        found matches Err(e) ==> list_error(texts(list@)) == Some(DataError::Syllable(e)),
        distinct_records(old(records)@) ==> distinct_records(final(records)@),
{
    let ghost all = texts(list@);
    let mut indexes: Vec<usize> = Vec::new();
    let mut i: usize = 0;
    while i < list.len()
        invariant
            i <= list.len(),
            all == texts(list@),
            records_ok(records@),
            is_prefix(old(records)@, records@),
            first_error(i as nat, syllable_error_at(all)) is None,
            spells(records@, indexes@, all.take(i as int)),
            distinct_records(old(records)@) ==> distinct_records(records@),
        decreases list.len() - i,
    {
        let ghost before = records@;
        let ghost taken = indexes@;
        match intern(records, list[i]) {
            Ok(index) => {
                indexes.push(index);
                proof {
                    lemma_spells_stays(before, records@, taken, all.take(i as int));
                    assert(all.take(i + 1) =~= all.take(i as int).push(all[i as int]));
                }
            },
            Err(e) => {
                proof {
                    assert(first_error((i + 1) as nat, syllable_error_at(all)) == Some(
                        DataError::Syllable(e),
                    ));
                    lemma_first_error_stays((i + 1) as nat, all.len(), syllable_error_at(all));
                }
                return Err(e);
            },
        }
        i += 1;
    }
    assert(all.take(list.len() as int) =~= all);
    Ok(indexes)
}

/// Whether two lists of indexes are the same.
fn same_indexes(a: &Vec<usize>, b: &Vec<usize>) -> (same: bool)
    ensures
        same == (a@ == b@),
{
    if a.len() != b.len() {
        return false;
    }
    let mut i: usize = 0;
    while i < a.len()
        invariant
            a.len() == b.len(),
            i <= a.len(),
            forall|k: int| 0 <= k < i ==> a[k] == b[k],
        decreases a.len() - i,
    {
        if a[i] != b[i] {
            return false;
        }
        i += 1;
    }
    assert(a@ =~= b@);
    true
}

/// The index of a list that holds what `list` holds; `list` itself is added
/// to the lists where none of them does.
fn intern_list(lists: &mut Vec<Vec<usize>>, list: Vec<usize>) -> (index: usize)
    ensures
        final(lists)@ == old(lists)@ || final(lists)@ == old(lists)@.push(list),
        index < final(lists).len(),
        final(lists)[index as int]@ == list@,
        distinct_lists(old(lists)@) ==> distinct_lists(final(lists)@),
{
    let mut l: usize = 0;
    while l < lists.len()
        invariant
            l <= lists.len(),
            lists@ == old(lists)@,
            forall|k: int| 0 <= k < l ==> (#[trigger] lists[k])@ != list@,
        decreases lists.len() - l,
    {
        if same_indexes(&lists[l], &list) {
            return l;
        }
        l += 1;
    }
    lists.push(list);
    proof {
        if distinct_lists(old(lists)@) {
            assert forall|a: int, b: int| 0 <= a < b < lists.len() implies (#[trigger] lists[a])@
                != (#[trigger] lists[b])@ by {
                if b < lists.len() - 1 {
                    assert(old(lists)[a]@ != old(lists)[b]@);
                } else {
                    assert(old(lists)[a]@ != list@);
                }
            }
        }
    }
    lists.len() - 1
}

/// The indexes of `order` are those of entries, and the characters of these
/// entries come in strictly ascending order.
spec fn in_code_order<'a>(entries: Seq<Entry<'a>>, order: Seq<usize>) -> bool {
    &&& forall|p: int| 0 <= p < order.len() ==> (#[trigger] order[p]) < entries.len()
    &&& forall|p: int, q: int|
        0 <= p < q < order.len() ==> code_of(entries[(#[trigger] order[p]) as int].code)
            < code_of(entries[(#[trigger] order[q]) as int].code)
}

/// `order` holds the index `j`.
spec fn has_index(order: Seq<usize>, j: int) -> bool {
    exists|p: int| 0 <= p < order.len() && #[trigger] order[p] == j
}

/// `order` holds every index below `k`, and no other.
spec fn holds_first(order: Seq<usize>, k: int) -> bool {
    &&& forall|p: int| 0 <= p < order.len() ==> (#[trigger] order[p]) < k
    &&& forall|j: int| 0 <= j < k ==> #[trigger] has_index(order, j)
}

/// Whether every one of `list` is a syllable.
fn check_list(list: &Vec<&str>) -> (checked: Result<(), SyllableError>)
    ensures
        checked is Ok <==> list_error(texts(list@)) is None,
        checked matches Err(e) ==> list_error(texts(list@)) == Some(DataError::Syllable(e)),
{
    let ghost all = texts(list@);
    let mut i: usize = 0;
    while i < list.len()
        invariant
            i <= list.len(),
            all == texts(list@),
            first_error(i as nat, syllable_error_at(all)) is None,
        decreases list.len() - i,
    {
        match check_syllable(list[i]) {
            Ok(()) => {},
            Err(e) => {
                proof {
                    assert(first_error((i + 1) as nat, syllable_error_at(all)) == Some(
                        DataError::Syllable(e),
                    ));
                    lemma_first_error_stays((i + 1) as nat, all.len(), syllable_error_at(all));
                }
                return Err(e);
            },
        }
        i += 1;
    }
    Ok(())
}

/// Puts the index `k` into `order` at the place of its entry's character,
/// unless an entry before it is for that character.
fn place(entries: &Vec<Entry<'_>>, order: &mut Vec<usize>, k: usize) -> (placed: bool)
    requires
        k < entries.len(),
        in_code_order(entries@, old(order)@),
        holds_first(old(order)@, k as int),
    ensures
        placed <==> !repeats(entries@, k as int),
        placed ==> {
            &&& final(order).len() == old(order).len() + 1
            &&& in_code_order(entries@, final(order)@)
            &&& holds_first(final(order)@, k + 1)
        },
        !placed ==> final(order)@ == old(order)@,
{
    let code = entries[k].code as u32;
    let mut pos: usize = order.len();
    while pos > 0 && entries[order[pos - 1]].code as u32 > code
        invariant
            pos <= order.len(),
            order@ == old(order)@,
            k < entries.len(),
            code == code_of(entries[k as int].code),
            in_code_order(entries@, order@),
            forall|q: int|
                pos <= q < order.len() ==> code_of(entries[(#[trigger] order[q]) as int].code)
                    > code,
        decreases pos,
    {
        pos -= 1;
    }
    if pos > 0 && entries[order[pos - 1]].code as u32 == code {
        proof {
            let j = order[pos - 1] as int;
            assert(j < k);
            assert(code_of(entries[j].code) == code_of(entries[k as int].code));
        }
        return false;
    }
    proof {
        assert forall|j: int| 0 <= j < k implies code_of((#[trigger] entries[j]).code)
            != code by {
            assert(has_index(order@, j));
            let p = choose|p: int| 0 <= p < order.len() && #[trigger] order[p] == j;
            if p < pos - 1 {
                assert(code_of(entries[order[p] as int].code) < code_of(
                    entries[order[pos - 1] as int].code,
                ));
            }
        }
    }
    let ghost before = order@;
    order.insert(pos, k);
    proof {
        assert forall|p: int| 0 <= p < order.len() implies (#[trigger] order[p]) < entries.len()
            && order[p] < k + 1 by {
            if p < pos {
                assert(order[p] == before[p]);
            } else if p > pos {
                assert(order[p] == before[p - 1]);
            }
        }
        assert forall|p: int, q: int| 0 <= p < q < order.len() implies code_of(
            entries[(#[trigger] order[p]) as int].code,
        ) < code_of(entries[(#[trigger] order[q]) as int].code) by {
            let from_p = if p < pos {
                p
            } else {
                p - 1
            };
            let from_q = if q < pos {
                q
            } else {
                q - 1
            };
            if p != pos {
                assert(order[p] == before[from_p]);
            }
            if q != pos {
                assert(order[q] == before[from_q]);
            }
            if p != pos && q != pos {
                assert(code_of(entries[before[from_p] as int].code) < code_of(
                    entries[before[from_q] as int].code,
                ));
            }
        }
        assert forall|j: int| 0 <= j < k + 1 implies #[trigger] has_index(order@, j) by {
            if j == k {
                assert(order[pos as int] == j);
            } else {
                assert(has_index(before, j));
                let p = choose|p: int| 0 <= p < before.len() && #[trigger] before[p] == j;
                if p < pos {
                    assert(order[p] == j);
                } else {
                    assert(order[p + 1] == j);
                }
            }
        }
    }
    true
}

/// The indexes of the entries in the ascending order of their characters,
/// unless an entry has a fault.
fn order_entries(entries: &Vec<Entry<'_>>) -> (made: Result<Vec<usize>, DataError>)
    ensures
        made is Ok <==> first_error(entries.len() as nat, entry_error_at(entries@)) is None,
        made matches Err(e) ==> first_error(entries.len() as nat, entry_error_at(entries@))
            == Some(e),
        made matches Ok(order) ==> {
            &&& order.len() == entries.len()
            &&& in_code_order(entries@, order@)
            &&& holds_first(order@, entries.len() as int)
        },
{
    let mut order: Vec<usize> = Vec::new();
    let mut k: usize = 0;
    while k < entries.len()
        invariant
            k <= entries.len(),
            first_error(k as nat, entry_error_at(entries@)) is None,
            order.len() == k,
            in_code_order(entries@, order@),
            holds_first(order@, k as int),
        decreases entries.len() - k,
    {
        let ghost at = entry_error_at(entries@);
        if entries[k].syllables.len() == 0 {
            proof {
                assert(first_error((k + 1) as nat, at) == Some(DataError::NoReading));
                lemma_first_error_stays((k + 1) as nat, entries.len() as nat, at);
            }
            return Err(DataError::NoReading);
        }
        if !place(entries, &mut order, k) {
            proof {
                assert(first_error((k + 1) as nat, at) == Some(DataError::Repeated));
                lemma_first_error_stays((k + 1) as nat, entries.len() as nat, at);
            }
            return Err(DataError::Repeated);
        }
        match check_list(&entries[k].syllables) {
            Ok(()) => {},
            Err(e) => {
                proof {
                    assert(first_error((k + 1) as nat, at) == Some(DataError::Syllable(e)));
                    lemma_first_error_stays((k + 1) as nat, entries.len() as nat, at);
                }
                return Err(DataError::Syllable(e));
            },
        }
        proof {
            assert(at(k as int) is None);
            assert(first_error((k + 1) as nat, at) is None);
        }
        k += 1;
    }
    Ok(order)
}

/// The slot of each entry, in the order of `order`. The records and the
/// lists grow by what the entries need.
fn compile_entries(
    entries: &Vec<Entry<'_>>,
    order: &Vec<usize>,
    records: &mut Vec<PinyinData>,
    lists: &mut Vec<Vec<usize>>,
) -> (slots: Vec<Slot>)
    requires
        records_ok(old(records)@),
        lists_ok(old(lists)@, old(records).len() as int),
        in_code_order(entries@, order@),
        forall|k: int|
            0 <= k < entries.len() ==> (#[trigger] entries[k]).syllables.len() > 0 && list_error(
                texts(entries[k].syllables@),
            ) is None,
    ensures
        records_ok(final(records)@),
        is_prefix(old(records)@, final(records)@),
        lists_ok(final(lists)@, final(records).len() as int),
        is_prefix(old(lists)@, final(lists)@),
        distinct_records(old(records)@) ==> distinct_records(final(records)@),
        distinct_lists(old(lists)@) ==> distinct_lists(final(lists)@),
        slots.len() == order.len(),
        ascending(slots@),
        forall|p: int|
            0 <= p < slots.len() ==> slot_spells(
                final(records)@,
                final(lists)@,
                #[trigger] slots[p],
                code_of(entries[order[p] as int].code),
                texts(entries[order[p] as int].syllables@),
            ),
{
    let mut slots: Vec<Slot> = Vec::new();
    let mut p: usize = 0;
    while p < order.len()
        invariant
            p <= order.len(),
            in_code_order(entries@, order@),
            forall|k: int|
                0 <= k < entries.len() ==> (#[trigger] entries[k]).syllables.len() > 0
                    && list_error(texts(entries[k].syllables@)) is None,
            records_ok(records@),
            is_prefix(old(records)@, records@),
            lists_ok(lists@, records.len() as int),
            is_prefix(old(lists)@, lists@),
            distinct_records(old(records)@) ==> distinct_records(records@),
            distinct_lists(old(lists)@) ==> distinct_lists(lists@),
            slots.len() == p,
            ascending(slots@),
            forall|j: int|
                0 <= j < p ==> slot_spells(
                    records@,
                    lists@,
                    #[trigger] slots[j],
                    code_of(entries[order[j] as int].code),
                    texts(entries[order[j] as int].syllables@),
                ),
        decreases order.len() - p,
    {
        let entry = &entries[order[p]];
        let ghost readings = texts(entry.syllables@);
        let code = entry.code as u32;
        let ghost records_before = records@;
        let ghost lists_before = lists@;
        proof {
            assert(entries[order[p as int] as int].syllables.len() > 0);
        }
        let indexes = match intern_all(records, &entry.syllables) {
            Ok(indexes) => indexes,
            Err(_) => {
                assert(false);
                Vec::new()
            },
        };
        let record = indexes[0];
        let ghost all_indexes = indexes@;
        let others = rest_of(&indexes);
        let list = intern_list(lists, others);
        let slot = Slot { code, record, list };
        proof {
            assert(spells(records@, lists[list as int]@, readings.skip(1))) by {
                assert forall|i: int| 0 <= i < all_indexes.len() - 1 implies 1 <= (
                #[trigger] all_indexes.skip(1)[i]) < records.len() && records[all_indexes.skip(
                    1,
                )[i] as int].with_tone@ == readings.skip(1)[i] by {
                    assert(all_indexes.skip(1)[i] == all_indexes[i + 1]);
                }
            }
            assert(lists_ok(lists@, records.len() as int)) by {
                assert forall|l: int| 0 <= l < lists.len() implies {
                    &&& (#[trigger] lists[l]).len() < usize::MAX
                    &&& forall|x: int|
                        0 <= x < lists[l].len() ==> 1 <= (#[trigger] lists[l][x]) < records.len()
                } by {
                    if l < lists_before.len() {
                        assert(lists[l] == lists_before[l]);
                        assert(lists_before[l].len() < usize::MAX);
                    } else {
                        assert(lists[l]@ == all_indexes.skip(1));
                        assert forall|x: int| 0 <= x < lists[l].len() implies 1 <= (
                        #[trigger] lists[l][x]) < records.len() by {
                            assert(all_indexes.skip(1)[x] == all_indexes[x + 1]);
                        }
                    }
                }
            }
            assert forall|j: int| 0 <= j < p implies slot_spells(
                records@,
                lists@,
                #[trigger] slots[j],
                code_of(entries[order[j] as int].code),
                texts(entries[order[j] as int].syllables@),
            ) by {
                lemma_slot_spells_stays(
                    records_before,
                    records@,
                    lists_before,
                    lists@,
                    slots[j],
                    code_of(entries[order[j] as int].code),
                    texts(entries[order[j] as int].syllables@),
                );
            }
        }
        let ghost slots_before = slots@;
        slots.push(slot);
        proof {
            assert forall|a: int, b: int| 0 <= a < b < slots.len() implies (
            #[trigger] slots[a]).code < (#[trigger] slots[b]).code by {
                assert(slots_before[a].code == code_of(entries[order[a] as int].code));
                if b == p {
                    assert(code_of(entries[order[a] as int].code) < code_of(
                        entries[order[b] as int].code,
                    ));
                } else {
                    assert(slots_before[a].code < slots_before[b].code);
                }
            }
        }
        p += 1;
    }
    slots
}

/// All of `indexes` but the first.
fn rest_of(indexes: &Vec<usize>) -> (rest: Vec<usize>)
    requires
        indexes.len() > 0,
    ensures
        rest@ == indexes@.skip(1),
{
    let mut rest: Vec<usize> = Vec::new();
    let mut i: usize = 1;
    while i < indexes.len()
        invariant
            1 <= i <= indexes.len(),
            rest@ == indexes@.subrange(1, i as int),
        decreases indexes.len() - i,
    {
        rest.push(indexes[i]);
        assert(indexes@.subrange(1, i + 1) =~= indexes@.subrange(1, i as int).push(
            indexes[i as int],
        ));
        i += 1;
    }
    assert(indexes@.subrange(1, indexes.len() as int) =~= indexes@.skip(1));
    rest
}

/// The index of the last of `phrases` whose text is `word`, -1 where none is.
pub open spec fn last_phrase<'a>(phrases: Seq<Phrase<'a>>, word: Seq<char>) -> int
    decreases phrases.len(),
{
    if phrases.len() == 0 {
        -1
    } else if phrases.last().text@ == word {
        phrases.len() - 1
    } else {
        last_phrase(phrases.drop_last(), word)
    }
}

/// What `phrases` say of `word`: the syllables of the last of them whose text it is.
pub open spec fn source_phrase<'a>(phrases: Seq<Phrase<'a>>, word: Seq<char>) -> Option<
    Seq<Seq<char>>,
> {
    let j = last_phrase(phrases, word);
    if j >= 0 {
        Some(texts(phrases[j].syllables@))
    } else {
        None
    }
}

/// The entries of `all` whose phrase has `n` characters, in their order.
spec fn bucket_of(all: Seq<PhraseEntry>, n: int) -> Seq<PhraseEntry>
    decreases all.len(),
{
    if all.len() == 0 {
        Seq::empty()
    } else if all.last().phrase.len() == n {
        bucket_of(all.drop_last(), n).push(all.last())
    } else {
        bucket_of(all.drop_last(), n)
    }
}

/// No entry of that length, no entry in the bucket of that length.
proof fn lemma_bucket_empty(all: Seq<PhraseEntry>, n: int)
    requires
        forall|i: int| 0 <= i < all.len() ==> (#[trigger] all[i]).phrase.len() != n,
    ensures
        bucket_of(all, n).len() == 0,
    decreases all.len(),
{
    if all.len() > 0 {
        assert(all.last() == all[all.len() - 1]);
        assert forall|i: int| 0 <= i < all.drop_last().len() implies (
        #[trigger] all.drop_last()[i]).phrase.len() != n by {
            assert(all.drop_last()[i] == all[i]);
        }
        lemma_bucket_empty(all.drop_last(), n);
    }
}

/// One more entry is one more in the bucket of its length, and in no other.
proof fn lemma_bucket_push(all: Seq<PhraseEntry>, entry: PhraseEntry, n: int)
    ensures
        bucket_of(all.push(entry), n) == if entry.phrase.len() == n {
            bucket_of(all, n).push(entry)
        } else {
            bucket_of(all, n)
        },
{
    assert(all.push(entry).drop_last() =~= all);
    assert(all.push(entry).last() == entry);
}

/// The last entry for a word in the bucket of its length is the last entry for it at all.
proof fn lemma_bucket_last(all: Seq<PhraseEntry>, word: Seq<char>)
    ensures
        last_match(bucket_of(all, word.len() as int), word) >= 0 <==> last_match(all, word) >= 0,
        last_match(all, word) >= 0 ==> bucket_of(all, word.len() as int)[last_match(
            bucket_of(all, word.len() as int),
            word,
        )] == all[last_match(all, word)],
    decreases all.len(),
{
    let n = word.len() as int;
    if all.len() > 0 {
        lemma_bucket_last(all.drop_last(), word);
        lemma_last_match(all.drop_last(), word);
        lemma_last_match(bucket_of(all.drop_last(), n), word);
        if all.last().phrase.len() == n {
            let bucket = bucket_of(all.drop_last(), n).push(all.last());
            assert(bucket.drop_last() =~= bucket_of(all.drop_last(), n));
            assert(bucket.last() == all.last());
        } else {
            assert(all.last().phrase@ != word);
        }
        if all.last().phrase@ != word && last_match(all.drop_last(), word) >= 0 {
            assert(all.drop_last()[last_match(all.drop_last(), word)] == all[last_match(
                all.drop_last(),
                word,
            )]);
        }
    }
}

/// Entries that were made of the words, one by one, have their last entry
/// for a word where the words have theirs.
proof fn lemma_last_phrase<'a>(all: Seq<PhraseEntry>, phrases: Seq<Phrase<'a>>, word: Seq<char>)
    requires
        all.len() == phrases.len(),
        forall|i: int| 0 <= i < all.len() ==> (#[trigger] all[i]).phrase@ == phrases[i].text@,
    ensures
        last_match(all, word) == last_phrase(phrases, word),
    decreases all.len(),
{
    if all.len() > 0 {
        assert(all.last() == all[all.len() - 1]);
        assert(phrases.last() == phrases[phrases.len() - 1]);
        assert forall|i: int| 0 <= i < all.drop_last().len() implies (
        #[trigger] all.drop_last()[i]).phrase@ == phrases.drop_last()[i].text@ by {
            assert(all.drop_last()[i] == all[i]);
            assert(phrases.drop_last()[i] == phrases[i]);
        }
        lemma_last_phrase(all.drop_last(), phrases.drop_last(), word);
    }
}

/// Puts `entry` at the end of the bucket at `n`.
fn push_into(buckets: &mut Vec<Vec<PhraseEntry>>, n: usize, entry: PhraseEntry)
    requires
        n < old(buckets).len(),
    ensures
        final(buckets).len() == old(buckets).len(),
        final(buckets)[n as int]@ == old(buckets)[n as int]@.push(entry),
        forall|m: int|
            0 <= m < old(buckets).len() && m != n ==> final(buckets)[m] == old(buckets)[m],
{
    buckets[n].push(entry);
}

/// The known words in buckets by their length, each with the record of each
/// of its characters. The records grow by what the words need.
fn compile_phrases(phrases: &Vec<Phrase<'_>>, records: &mut Vec<PinyinData>) -> (made: Result<
    Vec<Vec<PhraseEntry>>,
    DataError,
>)
    requires
        records_ok(old(records)@),
    ensures
        records_ok(final(records)@),
        is_prefix(old(records)@, final(records)@),
        distinct_records(old(records)@) ==> distinct_records(final(records)@),
        made is Ok <==> first_error(phrases.len() as nat, phrase_error_at(phrases@)) is None,
        made matches Err(e) ==> first_error(phrases.len() as nat, phrase_error_at(phrases@))
            == Some(e),
        made matches Ok(buckets) ==> {
            &&& phrases_ok(buckets@, final(records).len() as int)
            &&& buckets.len() >= 2
            &&& forall|j: int|
                0 <= j < phrases.len() ==> (#[trigger] phrases[j]).text@.len() < buckets.len()
            &&& buckets.len() > 2 ==> buckets[buckets.len() - 1].len() > 0
            &&& forall|word: Seq<char>| #[trigger]
                bucket_readings(final(records)@, buckets@, word) == source_phrase(phrases@, word)
        },
{
    let mut buckets: Vec<Vec<PhraseEntry>> = Vec::new();
    buckets.push(Vec::new());
    buckets.push(Vec::new());
    let ghost mut all: Seq<PhraseEntry> = Seq::empty();
    let mut j: usize = 0;
    while j < phrases.len()
        invariant
            j <= phrases.len(),
            records_ok(records@),
            is_prefix(old(records)@, records@),
            distinct_records(old(records)@) ==> distinct_records(records@),
            first_error(j as nat, phrase_error_at(phrases@)) is None,
            all.len() == j,
            forall|i: int|
                0 <= i < j ==> {
                    &&& (#[trigger] all[i]).phrase@ == phrases[i].text@
                    &&& all[i].phrase.len() < buckets.len()
                    &&& spells(records@, all[i].pinyin@, texts(phrases[i].syllables@))
                },
            buckets.len() >= 2,
            phrases_ok(buckets@, records.len() as int),
            forall|n: int| 0 <= n < buckets.len() ==> (#[trigger] buckets[n])@ == bucket_of(all, n),
            buckets.len() > 2 ==> buckets[buckets.len() - 1].len() > 0,
        decreases phrases.len() - j,
    {
        let phrase = &phrases[j];
        let ghost at = phrase_error_at(phrases@);
        let chars = chars_of(phrase.text);
        let n = chars.len();
        if n < 2 || phrase.syllables.len() != n {
            proof {
                assert(first_error((j + 1) as nat, at) == Some(DataError::PhraseLength));
                lemma_first_error_stays((j + 1) as nat, phrases.len() as nat, at);
            }
            return Err(DataError::PhraseLength);
        }
        let ghost records_before = records@;
        let indexes = match intern_all(records, &phrase.syllables) {
            Ok(indexes) => indexes,
            Err(e) => {
                proof {
                    assert(first_error((j + 1) as nat, at) == Some(DataError::Syllable(e)));
                    lemma_first_error_stays((j + 1) as nat, phrases.len() as nat, at);
                }
                return Err(DataError::Syllable(e));
            },
        };
        proof {
            assert(at(j as int) is None);
            assert(first_error((j + 1) as nat, at) is None);
            assert forall|i: int| 0 <= i < j implies spells(
                records@,
                (#[trigger] all[i]).pinyin@,
                texts(phrases[i].syllables@),
            ) by {
                lemma_spells_stays(
                    records_before,
                    records@,
                    all[i].pinyin@,
                    texts(phrases[i].syllables@),
                );
            }
        }
        let ghost buckets_before = buckets@;
        proof {
            assert forall|m: int, e: int|
                0 <= m < buckets.len() && 0 <= e < buckets[m].len() implies phrase_entry_ok(
                #[trigger] buckets[m][e],
                m,
                records.len() as int,
            ) by {
                assert(phrase_entry_ok(buckets[m][e], m, records_before.len() as int));
            }
        }
        while buckets.len() <= n
            invariant
                buckets.len() >= 2,
                n >= 2,
                buckets@ == buckets_before || buckets.len() <= n + 1,
                phrases_ok(buckets@, records.len() as int),
                forall|i: int|
                    0 <= i < all.len() ==> (#[trigger] all[i]).phrase.len() < buckets.len(),
                forall|m: int|
                    0 <= m < buckets.len() ==> (#[trigger] buckets[m])@ == bucket_of(all, m),
            decreases n + 1 - buckets.len(),
        {
            proof {
                lemma_bucket_empty(all, buckets.len() as int);
            }
            let ghost before = buckets@;
            buckets.push(Vec::new());
            proof {
                assert forall|m: int, e: int|
                    0 <= m < buckets.len() && 0 <= e < buckets[m].len() implies phrase_entry_ok(
                    #[trigger] buckets[m][e],
                    m,
                    records.len() as int,
                ) by {
                    assert(buckets[m] == before[m]);
                    assert(phrase_entry_ok(before[m][e], m, records.len() as int));
                }
            }
        }
        let entry = PhraseEntry { phrase: chars, pinyin: indexes };
        let ghost added = entry;
        let ghost before = buckets@;
        let ghost all_before = all;
        push_into(&mut buckets, n, entry);
        proof {
            all = all.push(added);
            assert forall|m: int| 0 <= m < buckets.len() implies (#[trigger] buckets[m])@
                == bucket_of(all, m) by {
                lemma_bucket_push(all_before, added, m);
                if m != n {
                    assert(buckets[m] == before[m]);
                }
            }
            assert forall|m: int, e: int|
                0 <= m < buckets.len() && 0 <= e < buckets[m].len() implies phrase_entry_ok(
                #[trigger] buckets[m][e],
                m,
                records.len() as int,
            ) by {
                if m != n {
                    assert(buckets[m] == before[m]);
                    assert(phrase_entry_ok(before[m][e], m, records.len() as int));
                } else if e < before[m].len() {
                    assert(buckets[m][e] == before[m][e]);
                    assert(phrase_entry_ok(before[m][e], m, records.len() as int));
                } else {
                    assert(buckets[m][e] == added);
                    assert(spells(records@, added.pinyin@, texts(phrases[j as int].syllables@)));
                }
            }
            if buckets.len() > 2 && n != buckets.len() - 1 {
                assert(before == buckets_before);
                assert(buckets[buckets.len() - 1] == before[buckets.len() - 1]);
            }
        }
        j += 1;
    }
    proof {
        assert forall|j: int| 0 <= j < phrases.len() implies (#[trigger] phrases[j]).text@.len()
            < buckets.len() by {
            assert(all[j].phrase@ == phrases[j].text@);
        }
        assert forall|word: Seq<char>| #[trigger]
            bucket_readings(records@, buckets@, word) == source_phrase(phrases@, word) by {
            let n = word.len() as int;
            lemma_last_phrase(all, phrases@, word);
            lemma_last_match(all, word);
            lemma_bucket_last(all, word);
            let idx = last_match(all, word);
            if n < buckets.len() {
                let bucket = buckets[n]@;
                lemma_last_match(bucket, word);
                let e = last_match(bucket, word);
                if idx >= 0 {
                    assert(bucket[e].phrase@ == word);
                    assert(buckets[n][e] == all[idx]);
                    assert(bucket_match(buckets@, word) == Some(e));
                    assert(spells(records@, all[idx].pinyin@, texts(phrases[idx].syllables@)));
                    assert(all[idx].phrase@ == word);
                    assert(bucket_readings(records@, buckets@, word)->0 =~= texts(
                        phrases[idx].syllables@,
                    ));
                } else {
                    assert(bucket_match(buckets@, word) is None);
                }
            } else {
                if idx >= 0 {
                    assert(all[idx].phrase@ == word);
                }
            }
        }
    }
    Ok(buckets)
}

/// Blocks that hold what the slots say hold indexes that lead somewhere.
proof fn lemma_blocks_fit(data: &Dataset, slots: Seq<Slot>)
    requires
        data.records.len() > 0,
        data.heteronyms.len() > 0,
        blocks_ordered(data.blocks@),
        forall|b: int| 0 <= b < data.blocks.len() ==> (#[trigger] data.blocks[b]).wf(),
        forall|code: u32| #[trigger] lookup(data.blocks@, code) == slot_for(slots, code),
        forall|j: int|
            0 <= j < slots.len() ==> (#[trigger] slots[j]).record < data.records.len()
                && slots[j].list < data.heteronyms.len(),
    ensures
        blocks_ok(data.blocks@, data.records.len() as int, data.heteronyms.len() as int),
{
    assert forall|b: int| 0 <= b < data.blocks.len() implies block_ok(
        #[trigger] data.blocks[b],
        data.records.len() as int,
        data.heteronyms.len() as int,
    ) by {
        assert(data.blocks[b].wf());
        assert forall|x: int| 0 <= x < data.blocks[b].data.len() implies (
        #[trigger] data.blocks[b].data[x]) < data.records.len() by {
            lemma_slot_in_bounds(data, slots, b, x);
        }
        assert forall|x: int| 0 <= x < data.blocks[b].heteronym.len() implies (
        #[trigger] data.blocks[b].heteronym[x]) < data.heteronyms.len() by {
            lemma_slot_in_bounds(data, slots, b, x);
        }
    }
}

/// A slot of a block holds what the slots say of its code point.
proof fn lemma_slot_in_bounds(data: &Dataset, slots: Seq<Slot>, b: int, x: int)
    requires
        data.records.len() > 0,
        data.heteronyms.len() > 0,
        blocks_ordered(data.blocks@),
        0 <= b < data.blocks.len(),
        data.blocks[b].wf(),
        0 <= x < data.blocks[b].data.len(),
        forall|code: u32| #[trigger] lookup(data.blocks@, code) == slot_for(slots, code),
        forall|j: int|
            0 <= j < slots.len() ==> (#[trigger] slots[j]).record < data.records.len()
                && slots[j].list < data.heteronyms.len(),
    ensures
        data.blocks[b].data[x] < data.records.len(),
        data.blocks[b].heteronym[x] < data.heteronyms.len(),
{
    let code = (data.blocks[b].start_code + x) as u32;
    assert(data.blocks[b].holds(code));
    lemma_slot_unique(data.blocks@, code, b);
    assert(lookup(data.blocks@, code) == slot_for(slots, code));
    lemma_slot_for_bounds(slots, code, data.records.len() as int, data.heteronyms.len() as int);
}

/// A character whose slot leads to syllables has those as its readings.
proof fn lemma_entry_readings(data: &Dataset, slot: Slot, ch: char, list: Seq<Seq<char>>)
    requires
        slot_spells(data.records@, data.heteronyms@, slot, code_of(ch), list),
        lookup(data.blocks@, code_of(ch)) == (slot.record, slot.list),
    ensures
        data.readings(ch) == list,
{
    assert(data.record_index(ch) == slot.record);
    assert(data.heteronym_index(ch) == slot.list);
    let others = data.heteronyms[slot.list as int]@;
    assert(spells(data.records@, others, list.skip(1)));
    assert forall|i: int| 0 <= i < others.len() implies data.records[others[i] as int].with_tone@
        == list[i + 1] by {
        assert(list.skip(1)[i] == list[i + 1]);
    }
    assert(data.readings(ch) =~= list);
}

/// The readings of a character are the toned forms of all its
/// pronunciations, as `to_pinyin_multi` gives them.
pub proof fn lemma_readings_are_all(data: &Dataset, ch: char)
    ensures
        match data.pinyin_multi(ch) {
            Some(multi) => data.readings(ch) == Seq::new(
                multi@.len(),
                |i: int| multi@[i].0.with_tone@,
            ),
            None => data.readings(ch).len() == 0,
        },
{
    if let Some(multi) = data.pinyin_multi(ch) {
        assert(data.readings(ch) =~= Seq::new(multi@.len(), |i: int| multi@[i].0.with_tone@));
    }
}

/// What the parts of a dataset were built to hold, the dataset holds.
proof fn lemma_compiled<'a>(
    entries: Seq<Entry<'a>>,
    phrases: Seq<Phrase<'a>>,
    order: Seq<usize>,
    slots: Seq<Slot>,
    records_before: Seq<PinyinData>,
    data: &Dataset,
)
    requires
        records_ok(records_before),
        lists_ok(data.heteronyms@, records_before.len() as int),
        order.len() == entries.len(),
        in_code_order(entries, order),
        holds_first(order, entries.len() as int),
        slots.len() == order.len(),
        ascending(slots),
        forall|p: int|
            0 <= p < slots.len() ==> slot_spells(
                records_before,
                data.heteronyms@,
                #[trigger] slots[p],
                code_of(entries[order[p] as int].code),
                texts(entries[order[p] as int].syllables@),
            ),
        records_ok(data.records@),
        is_prefix(records_before, data.records@),
        phrases_ok(data.phrases@, data.records.len() as int),
        forall|word: Seq<char>| #[trigger]
            bucket_readings(data.records@, data.phrases@, word) == source_phrase(phrases, word),
        blocks_ordered(data.blocks@),
        forall|b: int| 0 <= b < data.blocks.len() ==> (#[trigger] data.blocks[b]).wf(),
        forall|code: u32| #[trigger] lookup(data.blocks@, code) == slot_for(slots, code),
        forall|j: int|
            0 <= j < slots.len() - 1 ==> (in_one_block(
                data.blocks@,
                (#[trigger] slots[j]).code,
                slots[j + 1].code,
            ) <==> slots[j + 1].code - slots[j].code <= GAP_THRESHOLD),
    ensures
        data.wf(),
        forall|k: int|
            0 <= k < entries.len() ==> data.readings((#[trigger] entries[k]).code) == texts(
                entries[k].syllables@,
            ),
        forall|ch: char|
            (forall|k: int| 0 <= k < entries.len() ==> (#[trigger] entries[k]).code != ch)
                ==> !#[trigger] data.covers(ch),
        forall|word: Seq<char>| #[trigger]
            data.phrase_readings(word) == source_phrase(phrases, word),
        forall|a: int, b: int| #[trigger]
            next_in_code(entries, a, b) ==> (in_one_block(
                data.blocks@,
                code_of(entries[a].code),
                code_of(entries[b].code),
            ) <==> code_of(entries[b].code) - code_of(entries[a].code) <= GAP_THRESHOLD),
{
    assert forall|p: int| 0 <= p < slots.len() implies slot_spells(
        data.records@,
        data.heteronyms@,
        #[trigger] slots[p],
        code_of(entries[order[p] as int].code),
        texts(entries[order[p] as int].syllables@),
    ) by {
        lemma_slot_spells_stays(
            records_before,
            data.records@,
            data.heteronyms@,
            data.heteronyms@,
            slots[p],
            code_of(entries[order[p] as int].code),
            texts(entries[order[p] as int].syllables@),
        );
    }
    assert(lists_ok(data.heteronyms@, data.records.len() as int)) by {
        assert forall|l: int| 0 <= l < data.heteronyms.len() implies {
            &&& (#[trigger] data.heteronyms[l]).len() < usize::MAX
            &&& forall|x: int|
                0 <= x < data.heteronyms[l].len() ==> 1 <= (#[trigger] data.heteronyms[l][x])
                    < data.records.len()
        } by {
            assert(data.heteronyms[l].len() < usize::MAX);
            assert forall|x: int| 0 <= x < data.heteronyms[l].len() implies 1 <= (
            #[trigger] data.heteronyms[l][x]) < data.records.len() by {
                assert(1 <= data.heteronyms[l][x] < records_before.len());
            }
        }
    }
    lemma_blocks_fit(data, slots);
    assert forall|k: int| 0 <= k < entries.len() implies data.readings(
        (#[trigger] entries[k]).code,
    ) == texts(entries[k].syllables@) by {
        assert(has_index(order, k));
        let p = choose|p: int| 0 <= p < order.len() && #[trigger] order[p] == k;
        lemma_slot_for_present(slots, p);
        lemma_entry_readings(data, slots[p], entries[k].code, texts(entries[k].syllables@));
    }
    assert forall|ch: char|
        (forall|k: int| 0 <= k < entries.len() ==> (#[trigger] entries[k]).code != ch)
        implies !#[trigger] data.covers(ch) by {
        assert forall|j: int| 0 <= j < slots.len() implies (#[trigger] slots[j]).code != code_of(
            ch,
        ) by {
            let k = order[j] as int;
            assert(entries[k].code != ch);
            lemma_code_of(entries[k].code, ch);
            assert(slots[j].code == code_of(entries[k].code));
        }
        lemma_slot_for_absent(slots, code_of(ch));
        assert(lookup(data.blocks@, code_of(ch)) == slot_for(slots, code_of(ch)));
    }
    assert forall|word: Seq<char>| #[trigger]
        data.phrase_readings(word) == source_phrase(phrases, word) by {
        assert(bucket_readings(data.records@, data.phrases@, word) == source_phrase(
            phrases,
            word,
        ));
    }
    assert forall|a: int, b: int| #[trigger] next_in_code(entries, a, b) implies (in_one_block(
        data.blocks@,
        code_of(entries[a].code),
        code_of(entries[b].code),
    ) <==> code_of(entries[b].code) - code_of(entries[a].code) <= GAP_THRESHOLD) by {
        assert(has_index(order, a));
        assert(has_index(order, b));
        let pa = choose|p: int| 0 <= p < order.len() && #[trigger] order[p] == a;
        let pb = choose|p: int| 0 <= p < order.len() && #[trigger] order[p] == b;
        if pb < pa {
            assert(code_of(entries[order[pb] as int].code) < code_of(
                entries[order[pa] as int].code,
            ));
        }
        if pb > pa + 1 {
            let c = order[pa + 1] as int;
            assert(code_of(entries[order[pa] as int].code) < code_of(
                entries[order[pa + 1] as int].code,
            ));
            assert(code_of(entries[order[pa + 1] as int].code) < code_of(
                entries[order[pb] as int].code,
            ));
            assert(0 <= c < entries.len());
            assert(!(code_of(entries[a].code) < code_of(entries[c].code) < code_of(
                entries[b].code,
            )));
        }
        assert(pb == pa + 1);
        assert(slots[pa].code == code_of(entries[a].code));
        assert(slots[pa + 1].code == code_of(entries[b].code));
    }
}

impl Dataset {
    /// The toned forms of all the pronunciations of `ch`, the primary one
    /// first; none where the dataset has no pronunciation for `ch`.
    pub open spec fn readings(&self, ch: char) -> Seq<Seq<char>> {
        if self.covers(ch) {
            let others = self.heteronyms[self.heteronym_index(ch) as int];
            seq![self.records[self.record_index(ch) as int].with_tone@] + Seq::new(
                others.len() as nat,
                |i: int| self.records[others[i] as int].with_tone@,
            )
        } else {
            Seq::empty()
        }
    }

    /// Neighbouring blocks lie at least `GAP_THRESHOLD` code points apart.
    pub open spec fn blocks_apart(&self) -> bool {
        forall|b: int|
            0 <= b < self.blocks.len() - 1 ==> (#[trigger] self.blocks[b]).end_code()
                + GAP_THRESHOLD <= self.blocks[b + 1].start_code
    }

    /// A dataset without any pronunciation.
    pub fn empty() -> (data: Dataset)
        ensures
            data.wf(),
            forall|ch: char| !#[trigger] data.covers(ch),
            forall|word: Seq<char>| #[trigger] data.phrase_readings(word) is None,
            data.max_phrase_len() == 1,
    {
        let mut records: Vec<PinyinData> = Vec::new();
        records.push(PinyinData::sentinel());
        let mut heteronyms: Vec<Vec<usize>> = Vec::new();
        heteronyms.push(Vec::new());
        let mut phrases: Vec<Vec<PhraseEntry>> = Vec::new();
        phrases.push(Vec::new());
        phrases.push(Vec::new());
        Dataset { records, blocks: Vec::new(), heteronyms, phrases }
    }

    /// Builds the tables of a dataset. `entries` hold, in any order, the
    /// syllables of each character, and no character twice; `phrases` hold
    /// the known words. The dataset says of every character and of every word
    /// what they say of it, and nothing of any other. The entries are taken
    /// in the ascending order of their characters.
    pub fn compile(entries: &Vec<Entry<'_>>, phrases: &Vec<Phrase<'_>>) -> (made: Result<
        Dataset,
        DataError,
    >)
        ensures
            made is Ok <==> data_error(entries@, phrases@) is None,
            made matches Err(e) ==> data_error(entries@, phrases@) == Some(e),
            made matches Ok(data) ==> {
                &&& data.wf()
                &&& forall|k: int|
                    0 <= k < entries.len() ==> data.readings((#[trigger] entries[k]).code)
                        == texts(entries[k].syllables@)
                &&& forall|ch: char|
                    (forall|k: int| 0 <= k < entries.len() ==> (#[trigger] entries[k]).code != ch)
                        ==> !#[trigger] data.covers(ch)
                &&& forall|word: Seq<char>| #[trigger]
                    data.phrase_readings(word) == source_phrase(phrases@, word)
                &&& forall|j: int|
                    0 <= j < phrases.len() ==> (#[trigger] phrases[j]).text@.len()
                        <= data.max_phrase_len()
                &&& data.max_phrase_len() >= 1
                &&& data.max_phrase_len() > 1 ==> data.phrases[data.max_phrase_len()].len() > 0
                &&& distinct_records(data.records@)
                &&& distinct_lists(data.heteronyms@)
                &&& data.blocks_apart()
                &&& forall|a: int, b: int| #[trigger]
                    next_in_code(entries@, a, b) ==> (in_one_block(
                        data.blocks@,
                        code_of(entries[a].code),
                        code_of(entries[b].code),
                    ) <==> code_of(entries[b].code) - code_of(entries[a].code) <= GAP_THRESHOLD)
            },
    {
        let mut records: Vec<PinyinData> = Vec::new();
        records.push(PinyinData::sentinel());
        let mut heteronyms: Vec<Vec<usize>> = Vec::new();
        heteronyms.push(Vec::new());
        assert(distinct_records(records@) && distinct_lists(heteronyms@));
        let order = match order_entries(entries) {
            Ok(order) => order,
            Err(e) => {
                return Err(e);
            },
        };
        proof {
            let at = entry_error_at(entries@);
            lemma_no_error(entries.len() as nat, at);
            assert forall|k: int| 0 <= k < entries.len() implies (
            #[trigger] entries[k]).syllables.len() > 0 && list_error(
                texts(entries[k].syllables@),
            ) is None by {
                assert(at(k) is None);
            }
        }
        let slots = compile_entries(entries, &order, &mut records, &mut heteronyms);
        let ghost records_before = records@;
        let buckets = match compile_phrases(phrases, &mut records) {
            Ok(buckets) => buckets,
            Err(e) => {
                return Err(e);
            },
        };
        let blocks = partition(&slots);
        let data = Dataset { records, blocks, heteronyms, phrases: buckets };
        proof {
            lemma_compiled(entries@, phrases@, order@, slots@, records_before, &data);
        }
        Ok(data)
    }
}

} // verus!
