//! The older interface: one call that turns a string into lists of strings,
//! in a style chosen by an argument.
use vstd::prelude::*;
use crate::data::{Dataset, PinyinData};
use crate::pinyin::{chars_of, Pinyin, ToPinyin};
use crate::pinyin_multi::{PinyinMulti, ToPinyinMulti};

verus! {

/// The style in which a pronunciation is written.
#[derive(Debug, PartialEq, Eq, Hash, Structural)]
pub enum Style {
    /// Without a tone, as in `pin yin`.
    Normal,
    /// With the tone as a diacritic, as in `pīn yīn`.
    Tone,
    /// With the tone as a digit behind the letter that carries it, as in `pi1n yi1n`.
    Tone2,
    /// The initial only, as in `zh g` for 中国.
    Initials,
    /// The first letter only, as in `p y`.
    FirstLetter,
    /// The final without a tone, as in `ong uo`.
    Finals,
    /// The final with the tone as a diacritic, as in `ōng uó`.
    FinalsTone,
    /// The final with the tone as a digit behind its letter, as in `o1ng uo2`.
    FinalsTone2,
}

/// What `pinyin` and `lazy_pinyin` are asked for.
#[derive(Debug, PartialEq, Eq, Hash, Structural)]
pub struct Args {
    /// The style of each pronunciation.
    pub style: Style,
    /// Whether all the pronunciations of a character are wanted.
    pub heteronym: bool,
}

impl Args {
    /// The plain style, and one pronunciation for each character.
    pub fn new() -> (args: Args)
        ensures
            args.style == Style::Normal,
            !args.heteronym,
    {
        Args { style: Style::Normal, heteronym: false }
    }
}

impl Default for Args {
    /// The same as `Args::new`.
    fn default() -> (args: Args)
        ensures
            args.style == Style::Normal,
            !args.heteronym,
    {
        Args::new()
    }
}

/// What a record reads in a style.
pub open spec fn styled(record: &PinyinData, style: Style) -> Seq<char> {
    match style {
        Style::Normal => record.plain@,
        Style::Tone => record.with_tone@,
        Style::Tone2 => record.with_tone_num@,
        Style::Initials => record.plain@.take(record.split as int),
        Style::FirstLetter => record.plain@.take(1),
        Style::Finals => record.plain@.skip(record.split as int),
        Style::FinalsTone => record.with_tone@.skip(record.split as int),
        Style::FinalsTone2 => record.with_tone_num@.skip(record.split as int),
    }
}

/// `list` with only the first of equal items: the order of what stays is kept.
pub open spec fn first_of_each(list: Seq<Seq<char>>) -> Seq<Seq<char>>
    decreases list.len(),
{
    if list.len() == 0 {
        Seq::empty()
    } else {
        let front = first_of_each(list.drop_last());
        if front.contains(list.last()) {
            front
        } else {
            front.push(list.last())
        }
    }
}

/// What stays of a list holds every item of the list, and none of them twice.
pub proof fn lemma_first_of_each(list: Seq<Seq<char>>)
    ensures
        forall|item: Seq<char>| #[trigger]
            first_of_each(list).contains(item) ==> list.contains(item),
        forall|item: Seq<char>| #[trigger]
            list.contains(item) ==> first_of_each(list).contains(item),
        forall|i: int, j: int|
            0 <= i < j < first_of_each(list).len() ==> first_of_each(list)[i] != first_of_each(
                list,
            )[j],
        first_of_each(list).len() <= list.len(),
    decreases list.len(),
{
    if list.len() > 0 {
        let front = list.drop_last();
        let kept = first_of_each(front);
        lemma_first_of_each(front);
        assert forall|item: Seq<char>|
            (first_of_each(list).contains(item) ==> list.contains(item)) && (list.contains(item)
                ==> #[trigger] first_of_each(list).contains(item)) by {
            if list.contains(item) {
                let k = choose|k: int| 0 <= k < list.len() && list[k] == item;
                if k < list.len() - 1 {
                    assert(front[k] == item);
                    assert(front.contains(item));
                }
                if kept.contains(item) && !kept.contains(list.last()) {
                    let x = choose|x: int| 0 <= x < kept.len() && kept[x] == item;
                    assert(kept.push(list.last())[x] == item);
                }
                if item == list.last() && !kept.contains(item) {
                    assert(kept.push(item)[kept.len() as int] == item);
                }
            }
            if first_of_each(list).contains(item) {
                let x = choose|x: int|
                    0 <= x < first_of_each(list).len() && first_of_each(list)[x] == item;
                if x < kept.len() {
                    assert(kept[x] == item);
                    assert(kept.contains(item));
                    let k = choose|k: int| 0 <= k < front.len() && front[k] == item;
                    assert(list[k] == item);
                } else {
                    assert(list[list.len() - 1] == item);
                }
            }
        }
        if !kept.contains(list.last()) {
            assert forall|i: int, j: int| 0 <= i < j < kept.len() + 1 implies kept.push(
                list.last(),
            )[i] != kept.push(list.last())[j] by {
                if j == kept.len() {
                    assert(kept[i] != list.last());
                }
            }
        }
    }
}

/// The character sequences of a list of strings.
pub open spec fn strings(list: Seq<String>) -> Seq<Seq<char>> {
    Seq::new(list.len(), |i: int| list[i]@)
}

/// What `pinyin` gives for one character.
pub open spec fn readings_of(data: &Dataset, ch: char, args: &Args) -> Seq<Seq<char>> {
    if args.heteronym {
        match data.pinyin_multi(ch) {
            Some(multi) => first_of_each(
                Seq::new(multi@.len(), |i: int| styled(multi@[i].0, args.style)),
            ),
            None => Seq::empty(),
        }
    } else {
        match data.pinyin(ch) {
            Some(p) => seq![styled(p.0, args.style)],
            None => Seq::empty(),
        }
    }
}

/// What `lazy_pinyin` gives for a text: the primary pronunciation of each
/// character that has one.
pub open spec fn lazy_readings_of(data: &Dataset, text: Seq<char>, style: Style) -> Seq<
    Seq<char>,
> {
    Seq::new(
        data.pinyin_known(text).len(),
        |i: int| styled(data.pinyin_known(text)[i].0, style),
    )
}

/// The pronunciation `py` written in `style`.
pub fn apply_style<'a>(py: Pinyin<'a>, style: &Style) -> (s: &'a str)
    requires
        py.wf(),
    ensures
        s@ == styled(py.0, *style),
{
    match style {
        Style::Normal => py.plain(),
        Style::Tone => py.with_tone(),
        Style::Tone2 => py.with_tone_num(),
        Style::Initials => py.initials(),
        Style::FirstLetter => py.first_letter(),
        Style::Finals => py.finals_plain(),
        Style::FinalsTone => py.finals_with_tone(),
        Style::FinalsTone2 => py.finals_with_tone_num(),
    }
}

/// Whether `list` holds a string that reads as `s` does.
pub fn contains_string(list: &Vec<String>, s: &str) -> (found: bool)
    ensures
        found == strings(list@).contains(s@),
{
    let wanted = String::from_str(s);
    let mut i: usize = 0;
    while i < list.len()
        invariant
            i <= list.len(),
            wanted@ == s@,
            forall|k: int| 0 <= k < i ==> strings(list@)[k] != s@,
        decreases list.len() - i,
    {
        if list[i] == wanted {
            assert(strings(list@)[i as int] == s@);
            return true;
        }
        i += 1;
    }
    false
}

/// All the pronunciations of one character in `style`, each of them once.
pub fn multi_readings(multi: PinyinMulti<'_>, style: &Style) -> (out: Vec<String>)
    requires
        multi.wf(),
    ensures
        strings(out@) == first_of_each(
            Seq::new(multi@.len(), |i: int| styled(multi@[i].0, *style)),
        ),
{
    let ghost all = Seq::new(multi@.len(), |i: int| styled(multi@[i].0, *style));
    let mut out: Vec<String> = Vec::new();
    let count = multi.count();
    let mut i: usize = 0;
    assert(strings(out@) =~= first_of_each(all.take(0)));
    while i < count
        invariant
            multi.wf(),
            count == multi@.len(),
            i <= count,
            all == Seq::new(multi@.len(), |i: int| styled(multi@[i].0, *style)),
            strings(out@) == first_of_each(all.take(i as int)),
        decreases count - i,
    {
        let s = apply_style(multi.get(i), style);
        proof {
            assert(all.take(i + 1).drop_last() =~= all.take(i as int));
            assert(all.take(i + 1).last() == s@);
        }
        if !contains_string(&out, s) {
            let ghost before = out@;
            out.push(String::from_str(s));
            assert(strings(out@) =~= strings(before).push(s@));
        }
        i += 1;
    }
    assert(all.take(count as int) =~= all);
    out
}

/// The pronunciations of each character of `s`, written as `a` asks: one
/// list for each character, empty where the character has no pronunciation.
/// Without `heteronym` a list holds the primary pronunciation only; with it,
/// all of them, each written form once.
pub fn pinyin(data: &Dataset, s: &str, a: &Args) -> (out: Vec<Vec<String>>)
    requires
        data.wf(),
    ensures
        out.len() == s@.len(),
        forall|i: int|
            0 <= i < out.len() ==> strings((#[trigger] out[i])@) == readings_of(data, s@[i], a),
{
    let chars = chars_of(s);
    let mut out: Vec<Vec<String>> = Vec::new();
    let mut i: usize = 0;
    while i < chars.len()
        invariant
            data.wf(),
            chars@ == s@,
            i <= chars.len(),
            out.len() == i,
            forall|k: int|
                0 <= k < i ==> strings((#[trigger] out[k])@) == readings_of(data, s@[k], a),
        decreases chars.len() - i,
    {
        let ch = chars[i];
        let mut list: Vec<String> = Vec::new();
        if a.heteronym {
            match ch.to_pinyin_multi(data) {
                Some(multi) => {
                    list = multi_readings(multi, &a.style);
                },
                None => {
                    assert(strings(list@) =~= Seq::<Seq<char>>::empty());
                },
            }
        } else {
            match ch.to_pinyin(data) {
                Some(p) => {
                    list.push(String::from_str(apply_style(p, &a.style)));
                    assert(strings(list@) =~= seq![styled(p.0, a.style)]);
                },
                None => {
                    assert(strings(list@) =~= Seq::<Seq<char>>::empty());
                },
            }
        }
        out.push(list);
        i += 1;
    }
    out
}

/// The primary pronunciation of each character of `s` that has one, written
/// in the style of `a`. Characters without a pronunciation are left out.
pub fn lazy_pinyin(data: &Dataset, s: &str, a: &Args) -> (out: Vec<String>)
    requires
        data.wf(),
    ensures
        strings(out@) == lazy_readings_of(data, s@, a.style),
{
    let chars = chars_of(s);
    let mut out: Vec<String> = Vec::new();
    let mut i: usize = 0;
    assert(strings(out@) =~= lazy_readings_of(data, s@.take(0), a.style));
    while i < chars.len()
        invariant
            data.wf(),
            chars@ == s@,
            i <= chars.len(),
            strings(out@) == lazy_readings_of(data, s@.take(i as int), a.style),
        decreases chars.len() - i,
    {
        proof {
            assert(s@.take(i + 1).drop_last() =~= s@.take(i as int));
            assert(s@.take(i + 1).last() == s@[i as int]);
        }
        match chars[i].to_pinyin(data) {
            Some(p) => {
                let ghost before = out@;
                let ghost known = data.pinyin_known(s@.take(i as int));
                out.push(String::from_str(apply_style(p, &a.style)));
                proof {
                    assert(data.pinyin_known(s@.take(i + 1)) == known.push(p));
                    assert(strings(out@) =~= strings(before).push(styled(p.0, a.style)));
                    assert(strings(out@) =~= lazy_readings_of(data, s@.take(i + 1), a.style));
                }
            },
            None => {
                assert(strings(out@) =~= lazy_readings_of(data, s@.take(i + 1), a.style));
            },
        }
        i += 1;
    }
    assert(s@.take(chars.len() as int) =~= s@);
    out
}

} // verus!
