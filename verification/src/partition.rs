//! Cutting the code points that have a pronunciation into blocks.
//!
//! The code points come in ascending order. Two neighbours stay in one block
//! as long as fewer than `GAP_THRESHOLD` code points without a pronunciation
//! lie between them; the slots of those are filled with zeros. A wider gap
//! begins a new block.
use vstd::prelude::*;
use crate::data::{blocks_ordered, lemma_slot_unique, slot_of, CharBlock};

verus! {

/// How many empty slots in a row a block may hold at most, and one more.
pub const GAP_THRESHOLD: u32 = 2048;

/// What the tables hold for one code point.
#[derive(Clone, Copy)]
pub struct Slot {
    pub code: u32,
    /// The index of the record of the primary pronunciation.
    pub record: usize,
    /// The index of the list of the other pronunciations.
    pub list: usize,
}

/// The code points come in strictly ascending order, and each is a code point.
pub open spec fn ascending(slots: Seq<Slot>) -> bool {
    &&& forall|i: int, j: int|
        0 <= i < j < slots.len() ==> (#[trigger] slots[i]).code < (#[trigger] slots[j]).code
    &&& forall|i: int| 0 <= i < slots.len() ==> (#[trigger] slots[i]).code <= 0x10FFFF
}

/// What `slots` say of `code`: the two indexes of the slot for it, and two
/// zeros where there is none.
pub open spec fn slot_for(slots: Seq<Slot>, code: u32) -> (usize, usize)
    decreases slots.len(),
{
    if slots.len() == 0 {
        (0, 0)
    } else if slots.last().code == code {
        (slots.last().record, slots.last().list)
    } else {
        slot_for(slots.drop_last(), code)
    }
}

/// What `blocks` hold for `code`: the two indexes in its slot, and two zeros
/// where no block has a slot for it.
pub open spec fn lookup(blocks: Seq<CharBlock>, code: u32) -> (usize, usize) {
    match slot_of(blocks, code) {
        Some((b, k)) => (blocks[b].data[k], blocks[b].heteronym[k]),
        None => (0, 0),
    }
}

/// Two code points lie in one and the same block.
pub open spec fn in_one_block(blocks: Seq<CharBlock>, a: u32, b: u32) -> bool {
    exists|i: int| 0 <= i < blocks.len() && (#[trigger] blocks[i]).holds(a) && blocks[i].holds(b)
}

/// Of a code point that is not among the slots, the slots say nothing.
pub proof fn lemma_slot_for_absent(slots: Seq<Slot>, code: u32)
    requires
        forall|j: int| 0 <= j < slots.len() ==> (#[trigger] slots[j]).code != code,
    ensures
        slot_for(slots, code) == (0usize, 0usize),
    decreases slots.len(),
{
    if slots.len() > 0 {
        assert(slots.last() == slots[slots.len() - 1]);
        assert forall|j: int| 0 <= j < slots.drop_last().len() implies (
        #[trigger] slots.drop_last()[j]).code != code by {
            assert(slots.drop_last()[j] == slots[j]);
        }
        lemma_slot_for_absent(slots.drop_last(), code);
    }
}

/// Of the code point of one of them, slots in ascending order say what that slot holds.
pub proof fn lemma_slot_for_present(slots: Seq<Slot>, j: int)
    requires
        ascending(slots),
        0 <= j < slots.len(),
    ensures
        slot_for(slots, slots[j].code) == (slots[j].record, slots[j].list),
    decreases slots.len(),
{
    if j < slots.len() - 1 {
        assert(slots.last() == slots[slots.len() - 1]);
        assert(slots[j].code < slots[slots.len() - 1].code);
        assert forall|a: int, b: int| 0 <= a < b < slots.drop_last().len() implies (
        #[trigger] slots.drop_last()[a]).code < (#[trigger] slots.drop_last()[b]).code by {
            assert(slots.drop_last()[a] == slots[a]);
            assert(slots.drop_last()[b] == slots[b]);
        }
        assert forall|a: int| 0 <= a < slots.drop_last().len() implies (
        #[trigger] slots.drop_last()[a]).code <= 0x10FFFF by {
            assert(slots.drop_last()[a] == slots[a]);
        }
        assert(slots.drop_last()[j] == slots[j]);
        lemma_slot_for_present(slots.drop_last(), j);
    }
}

/// What the slots say of a code point is two zeros or what one of them holds.
pub proof fn lemma_slot_for_bounds(slots: Seq<Slot>, code: u32, records: int, lists: int)
    requires
        records > 0,
        lists > 0,
        forall|j: int|
            0 <= j < slots.len() ==> (#[trigger] slots[j]).record < records && slots[j].list
                < lists,
    ensures
        slot_for(slots, code).0 < records,
        slot_for(slots, code).1 < lists,
    decreases slots.len(),
{
    if slots.len() > 0 {
        assert(slots.last() == slots[slots.len() - 1]);
        assert forall|j: int| 0 <= j < slots.drop_last().len() implies (
        #[trigger] slots.drop_last()[j]).record < records && slots.drop_last()[j].list
            < lists by {
            assert(slots.drop_last()[j] == slots[j]);
        }
        lemma_slot_for_bounds(slots.drop_last(), code, records, lists);
    }
}

/// What one slot more changes: what is said of its own code point.
proof fn lemma_take_more(slots: Seq<Slot>, i: int, code: u32)
    requires
        0 <= i < slots.len(),
    ensures
        slot_for(slots.take(i + 1), code) == if slots[i].code == code {
            (slots[i].record, slots[i].list)
        } else {
            slot_for(slots.take(i), code)
        },
{
    assert(slots.take(i + 1).drop_last() =~= slots.take(i));
    assert(slots.take(i + 1).last() == slots[i]);
}

/// Of a code point behind the last of them, the slots say nothing.
proof fn lemma_beyond(slots: Seq<Slot>, i: int, code: u32)
    requires
        ascending(slots),
        0 < i <= slots.len(),
        slots[i - 1].code < code,
    ensures
        slot_for(slots.take(i), code) == (0usize, 0usize),
{
    assert forall|j: int| 0 <= j < slots.take(i).len() implies (#[trigger] slots.take(i)[j]).code
        != code by {
        assert(slots.take(i)[j] == slots[j]);
        if j < i - 1 {
            assert(slots[j].code < slots[i - 1].code);
        }
    }
    lemma_slot_for_absent(slots.take(i), code);
}

/// Cuts `slots` into blocks. The blocks hold for every code point what the
/// slots say of it; they come in ascending order, and at least
/// `GAP_THRESHOLD` code points lie between one block and the next.
pub fn partition(slots: &Vec<Slot>) -> (blocks: Vec<CharBlock>)
    requires
        ascending(slots@),
    ensures
        blocks_ordered(blocks@),
        forall|b: int| 0 <= b < blocks.len() ==> (#[trigger] blocks[b]).wf(),
        forall|code: u32| #[trigger] lookup(blocks@, code) == slot_for(slots@, code),
        forall|b: int|
            0 <= b < blocks.len() - 1 ==> (#[trigger] blocks[b]).end_code() + GAP_THRESHOLD
                <= blocks[b + 1].start_code,
        forall|j: int|
            0 <= j < slots.len() - 1 ==> (in_one_block(
                blocks@,
                (#[trigger] slots[j]).code,
                slots[j + 1].code,
            ) <==> slots[j + 1].code - slots[j].code <= GAP_THRESHOLD),
{
    let mut blocks: Vec<CharBlock> = Vec::new();
    if slots.len() == 0 {
        assert forall|code: u32| #[trigger] lookup(blocks@, code) == slot_for(slots@, code) by {}
        return blocks;
    }
    let mut start: u32 = slots[0].code;
    let mut data: Vec<usize> = Vec::new();
    let mut heteronym: Vec<usize> = Vec::new();
    data.push(slots[0].record);
    heteronym.push(slots[0].list);
    let ghost mut owner: Seq<int> = seq![0int];
    proof {
        lemma_take_more(slots@, 0, start);
    }
    let mut i: usize = 1;
    while i < slots.len()
        invariant
            1 <= i <= slots.len(),
            ascending(slots@),
            blocks_ordered(blocks@),
            forall|b: int| 0 <= b < blocks.len() ==> (#[trigger] blocks[b]).wf(),
            forall|b: int|
                0 <= b < blocks.len() ==> (#[trigger] blocks[b]).end_code() + GAP_THRESHOLD
                    <= start,
            forall|b: int|
                0 <= b < blocks.len() - 1 ==> (#[trigger] blocks[b]).end_code() + GAP_THRESHOLD
                    <= blocks[b + 1].start_code,
            data.len() == heteronym.len(),
            data.len() >= 1,
            start + data.len() == slots[i - 1].code + 1,
            forall|b: int, k: int|
                0 <= b < blocks.len() && 0 <= k < blocks[b].data.len() ==> (
                #[trigger] blocks[b].data[k], blocks[b].heteronym[k]) == slot_for(
                    slots@.take(i as int),
                    (blocks[b].start_code + k) as u32,
                ),
            forall|k: int|
                0 <= k < data.len() ==> (#[trigger] data[k], heteronym[k]) == slot_for(
                    slots@.take(i as int),
                    (start + k) as u32,
                ),
            owner.len() == i,
            forall|j: int|
                0 <= j < i ==> {
                    &&& 0 <= #[trigger] owner[j] <= blocks.len()
                    &&& owner[j] < blocks.len() ==> blocks[owner[j]].holds(slots[j].code)
                    &&& owner[j] == blocks.len() ==> start <= slots[j].code
                },
            forall|j: int| 0 <= j < i - 1 ==> owner[j] <= #[trigger] owner[j + 1],
            forall|j: int|
                0 <= j < i - 1 ==> (#[trigger] owner[j] == owner[j + 1] <==> slots[j + 1].code
                    - slots[j].code <= GAP_THRESHOLD),
        decreases slots.len() - i,
    {
        let slot = slots[i];
        let end: u32 = start + data.len() as u32;
        assert(slots[i - 1].code < slots[i as int].code);
        if end + GAP_THRESHOLD > slot.code {
            let mut c: u32 = end;
            while c < slot.code
                invariant
                    1 <= i < slots.len(),
                    ascending(slots@),
                    slot == slots[i as int],
                    data.len() == heteronym.len(),
                    data.len() >= 1,
                    start + data.len() == c,
                    slots[i - 1].code < c <= slot.code,
                    forall|k: int|
                        0 <= k < data.len() ==> (#[trigger] data[k], heteronym[k]) == slot_for(
                            slots@.take(i as int),
                            (start + k) as u32,
                        ),
                decreases slot.code - c,
            {
                proof {
                    lemma_beyond(slots@, i as int, c);
                }
                data.push(0);
                heteronym.push(0);
                c = c + 1;
            }
            data.push(slot.record);
            heteronym.push(slot.list);
            proof {
                assert forall|k: int| 0 <= k < data.len() implies (#[trigger] data[k], heteronym[k])
                    == slot_for(slots@.take(i + 1), (start + k) as u32) by {
                    lemma_take_more(slots@, i as int, (start + k) as u32);
                }
                assert forall|b: int, k: int|
                    0 <= b < blocks.len() && 0 <= k < blocks[b].data.len() implies (
                #[trigger] blocks[b].data[k], blocks[b].heteronym[k]) == slot_for(
                    slots@.take(i + 1),
                    (blocks[b].start_code + k) as u32,
                ) by {
                    assert(blocks[b].wf());
                    assert(blocks[b].end_code() + GAP_THRESHOLD <= start);
                    lemma_take_more(slots@, i as int, (blocks[b].start_code + k) as u32);
                }
                owner = owner.push(blocks.len() as int);
            }
        } else {
            proof {
                assert forall|b: int, k: int|
                    0 <= b < blocks.len() && 0 <= k < blocks[b].data.len() implies (
                #[trigger] blocks[b].data[k], blocks[b].heteronym[k]) == slot_for(
                    slots@.take(i + 1),
                    (blocks[b].start_code + k) as u32,
                ) by {
                    assert(blocks[b].wf());
                    assert(blocks[b].end_code() + GAP_THRESHOLD <= start);
                    lemma_take_more(slots@, i as int, (blocks[b].start_code + k) as u32);
                }
                assert forall|k: int| 0 <= k < data.len() implies (#[trigger] data[k], heteronym[k])
                    == slot_for(slots@.take(i + 1), (start + k) as u32) by {
                    lemma_take_more(slots@, i as int, (start + k) as u32);
                }
            }
            let ghost old_blocks = blocks@;
            let block = CharBlock { start_code: start, data, heteronym };
            blocks.push(block);
            proof {
                assert forall|a: int, b: int| 0 <= a < b < blocks.len() implies (
                #[trigger] blocks[a]).end_code() <= (#[trigger] blocks[b]).start_code by {
                    if b < old_blocks.len() {
                        assert(old_blocks[a].end_code() <= old_blocks[b].start_code);
                    } else {
                        assert(old_blocks[a].end_code() + GAP_THRESHOLD <= start);
                    }
                }
                assert forall|j: int| 0 <= j < i implies {
                    &&& 0 <= #[trigger] owner[j] < blocks.len()
                    &&& blocks[owner[j]].holds(slots[j].code)
                } by {
                    if owner[j] < old_blocks.len() {
                        assert(old_blocks[owner[j]].holds(slots[j].code));
                    } else {
                        if j < i - 1 {
                            assert(slots[j].code < slots[i - 1].code);
                        }
                    }
                }
                owner = owner.push(blocks.len() as int);
            }
            start = slot.code;
            data = Vec::new();
            heteronym = Vec::new();
            data.push(slot.record);
            heteronym.push(slot.list);
            proof {
                lemma_take_more(slots@, i as int, start);
            }
        }
        i += 1;
    }
    let ghost old_blocks = blocks@;
    blocks.push(CharBlock { start_code: start, data, heteronym });
    proof {
        assert(slots@.take(slots.len() as int) =~= slots@);
        assert forall|a: int, b: int| 0 <= a < b < blocks.len() implies (
        #[trigger] blocks[a]).end_code() <= (#[trigger] blocks[b]).start_code by {
            if b < old_blocks.len() {
                assert(old_blocks[a].end_code() <= old_blocks[b].start_code);
            } else {
                assert(old_blocks[a].end_code() + GAP_THRESHOLD <= start);
            }
        }
        assert forall|j: int| 0 <= j < slots.len() implies {
            &&& 0 <= #[trigger] owner[j] < blocks.len()
            &&& blocks[owner[j]].holds(slots[j].code)
        } by {
            if owner[j] < old_blocks.len() {
                assert(old_blocks[owner[j]].holds(slots[j].code));
            } else {
                if j < slots.len() - 1 {
                    assert(slots[j].code < slots[slots.len() - 1].code);
                }
            }
        }
        assert forall|code: u32| #[trigger] lookup(blocks@, code) == slot_for(slots@, code) by {
            match slot_of(blocks@, code) {
                Some((b, k)) => {
                    assert(blocks[b].holds(code));
                    if b < old_blocks.len() {
                        assert((old_blocks[b].data[k], old_blocks[b].heteronym[k]) == slot_for(
                            slots@,
                            (old_blocks[b].start_code + k) as u32,
                        ));
                    }
                },
                None => {
                    if exists|j: int| 0 <= j < slots.len() && (#[trigger] slots[j]).code == code {
                        let j = choose|j: int|
                            0 <= j < slots.len() && (#[trigger] slots[j]).code == code;
                        assert(blocks[owner[j]].holds(code));
                    } else {
                        lemma_slot_for_absent(slots@, code);
                    }
                },
            }
        }
        assert forall|b: int| 0 <= b < blocks.len() - 1 implies (#[trigger] blocks[b]).end_code()
            + GAP_THRESHOLD <= blocks[b + 1].start_code by {
            if b + 1 < old_blocks.len() {
                assert(old_blocks[b].end_code() + GAP_THRESHOLD <= old_blocks[b + 1].start_code);
            } else {
                assert(old_blocks[b].end_code() + GAP_THRESHOLD <= start);
            }
        }
        assert forall|j: int| 0 <= j < slots.len() - 1 implies (in_one_block(
            blocks@,
            (#[trigger] slots[j]).code,
            slots[j + 1].code,
        ) <==> slots[j + 1].code - slots[j].code <= GAP_THRESHOLD) by {
            let a = slots[j].code;
            let b = slots[j + 1].code;
            assert(blocks[owner[j]].holds(a));
            assert(blocks[owner[j + 1]].holds(b));
            lemma_slot_unique(blocks@, a, owner[j]);
            lemma_slot_unique(blocks@, b, owner[j + 1]);
            if in_one_block(blocks@, a, b) {
                let x = choose|x: int|
                    0 <= x < blocks.len() && (#[trigger] blocks[x]).holds(a) && blocks[x].holds(b);
                lemma_slot_unique(blocks@, a, x);
                lemma_slot_unique(blocks@, b, x);
                assert(owner[j] == owner[j + 1]);
            }
        }
    }
    blocks
}

} // verus!
