//! The letters a pinyin syllable is written with, and what each one stands for.
//!
//! A syllable in its toned form is a short run of lower-case letters. At most
//! one of them carries a tone: either a letter with a diacritic (`ā`, `ǘ`, `ń`)
//! or a free-standing combining mark that follows a letter for which Unicode
//! has no precomposed form (`m̄`, `ê̌`).
use vstd::prelude::*;
use std::collections::HashMap;

verus! {

/// The tone a free-standing combining mark stands for, 0 for any other character.
pub open spec fn mark_tone(c: char) -> u8 {
    if c == '\u{304}' {
        1
    } else if c == '\u{30c}' {
        3
    } else if c == '\u{300}' {
        4
    } else {
        0
    }
}

/// The fixed table of letters that carry a tone: the letter without its
/// diacritic, and the tone (1 to 4) that the diacritic stands for.
pub open spec fn toned_letter(c: char) -> Option<(char, u8)> {
    match c {
        'ā' => Some(('a', 1u8)),
        'á' => Some(('a', 2u8)),
        'ǎ' => Some(('a', 3u8)),
        'à' => Some(('a', 4u8)),
        'ē' => Some(('e', 1u8)),
        'é' => Some(('e', 2u8)),
        'ě' => Some(('e', 3u8)),
        'è' => Some(('e', 4u8)),
        'ế' => Some(('ê', 2u8)),
        'ề' => Some(('ê', 4u8)),
        'ō' => Some(('o', 1u8)),
        'ó' => Some(('o', 2u8)),
        'ǒ' => Some(('o', 3u8)),
        'ò' => Some(('o', 4u8)),
        'ī' => Some(('i', 1u8)),
        'í' => Some(('i', 2u8)),
        'ǐ' => Some(('i', 3u8)),
        'ì' => Some(('i', 4u8)),
        'ū' => Some(('u', 1u8)),
        'ú' => Some(('u', 2u8)),
        'ǔ' => Some(('u', 3u8)),
        'ù' => Some(('u', 4u8)),
        'ǘ' => Some(('ü', 2u8)),
        'ǚ' => Some(('ü', 3u8)),
        'ǜ' => Some(('ü', 4u8)),
        'ń' => Some(('n', 2u8)),
        'ň' => Some(('n', 3u8)),
        'ǹ' => Some(('n', 4u8)),
        'ḿ' => Some(('m', 2u8)),
        _ => None,
    }
}

/// The letter that `c` stands for: the letter without the diacritic of its
/// tone, nothing for a combining mark, and `c` itself otherwise.
pub open spec fn base_of(c: char) -> Option<char> {
    match toned_letter(c) {
        Some((base, _)) => Some(base),
        None => if mark_tone(c) > 0 {
            None
        } else {
            Some(c)
        },
    }
}

/// The tone that `c` carries, 0 where it carries none.
pub open spec fn tone_of(c: char) -> u8 {
    match toned_letter(c) {
        Some((_, tone)) => tone,
        None => mark_tone(c),
    }
}

/// A letter without a tone that a syllable may hold: the ASCII lower-case
/// letters but `v`, and the two vowels `ê` and `ü`.
pub open spec fn is_plain_letter(c: char) -> bool {
    ('a' <= c <= 'z' && c != 'v') || c == 'ê' || c == 'ü'
}

/// The ASCII letter that writes a letter in the plain rendering: `v` for
/// `ü`, `e` for `ê`, and the letter itself otherwise.
pub open spec fn ascii_of(c: char) -> char {
    if c == 'ü' {
        'v'
    } else if c == 'ê' {
        'e'
    } else {
        c
    }
}

/// Whether a syllable may hold `c` at all.
pub open spec fn is_letter(c: char) -> bool {
    is_plain_letter(c) || toned_letter(c) is Some || mark_tone(c) > 0
}

/// The digit that writes tone `tone` in the numbered renderings.
pub open spec fn tone_digit(tone: u8) -> char
    recommends
        tone <= 4,
{
    if tone == 1 {
        '1'
    } else if tone == 2 {
        '2'
    } else if tone == 3 {
        '3'
    } else if tone == 4 {
        '4'
    } else {
        '0'
    }
}

/// Every letter stands for a plain letter or for nothing, and for a tone
/// from 0 to 4; a combining mark is the only letter that stands for nothing,
/// and it always carries a tone.
pub proof fn lemma_letter_parts(c: char)
    requires
        is_letter(c),
    ensures
        tone_of(c) <= 4,
        base_of(c) matches Some(b) ==> is_plain_letter(b),
        base_of(c) is None ==> tone_of(c) > 0,
        is_plain_letter(c) ==> base_of(c) == Some(c) && tone_of(c) == 0,
        base_of(c) matches Some(b) ==> 'a' <= ascii_of(b) <= 'z',
{
}

/// Looks `ch` up in the table of toned letters and combining marks.
pub fn get_char_info(ch: char) -> (info: (Option<char>, u8))
    ensures
        info.0 == base_of(ch),
        info.1 == tone_of(ch),
{
    match ch {
        'ā' => (Some('a'), 1),
        'á' => (Some('a'), 2),
        'ǎ' => (Some('a'), 3),
        'à' => (Some('a'), 4),
        'ē' => (Some('e'), 1),
        'é' => (Some('e'), 2),
        'ě' => (Some('e'), 3),
        'è' => (Some('e'), 4),
        'ế' => (Some('ê'), 2),
        'ề' => (Some('ê'), 4),
        'ō' => (Some('o'), 1),
        'ó' => (Some('o'), 2),
        'ǒ' => (Some('o'), 3),
        'ò' => (Some('o'), 4),
        'ī' => (Some('i'), 1),
        'í' => (Some('i'), 2),
        'ǐ' => (Some('i'), 3),
        'ì' => (Some('i'), 4),
        'ū' => (Some('u'), 1),
        'ú' => (Some('u'), 2),
        'ǔ' => (Some('u'), 3),
        'ù' => (Some('u'), 4),
        'ǘ' => (Some('ü'), 2),
        'ǚ' => (Some('ü'), 3),
        'ǜ' => (Some('ü'), 4),
        'ń' => (Some('n'), 2),
        'ň' => (Some('n'), 3),
        'ǹ' => (Some('n'), 4),
        'ḿ' => (Some('m'), 2),
        '\u{304}' => (None, 1),
        '\u{30c}' => (None, 3),
        '\u{300}' => (None, 4),
        _ => (Some(ch), 0),
    }
}

/// The ASCII letter that writes `letter` in the plain rendering.
pub fn to_ascii_letter(letter: char) -> (ascii: char)
    ensures
        ascii == ascii_of(letter),
{
    if letter == 'ü' {
        'v'
    } else if letter == 'ê' {
        'e'
    } else {
        letter
    }
}

/// Whether a syllable may hold `ch`.
pub fn is_known_letter(ch: char) -> (known: bool)
    ensures
        known == is_letter(ch),
{
    let (_, tone) = get_char_info(ch);
    if tone > 0 {
        true
    } else {
        ('a' <= ch && ch <= 'z' && ch != 'v') || ch == 'ê' || ch == 'ü'
    }
}

/// The digit that writes `tone`.
pub fn tone_num(tone: u8) -> (digit: char)
    requires
        1 <= tone <= 4,
    ensures
        digit == tone_digit(tone),
{
    if tone == 1 {
        '1'
    } else if tone == 2 {
        '2'
    } else if tone == 3 {
        '3'
    } else {
        '4'
    }
}

/// The table of the letters with a diacritic as the older interface has
/// it, keyed by the code point of each: the ASCII letter that writes the
/// letter, and the digit of its tone. The letter `ü` is written `v`, and
/// bears the digit 0 where it has no tone; the letter `m` with the second
/// tone stands under the code point of the private use area that once
/// wrote it.
pub open spec fn symbol_map() -> Map<u32, (char, u8)> {
    Map::empty().insert(
        'ā' as u32,
        ('a', 1u8),
    ).insert(
        'á' as u32,
        ('a', 2u8),
    ).insert(
        'ǎ' as u32,
        ('a', 3u8),
    ).insert(
        'à' as u32,
        ('a', 4u8),
    ).insert(
        'ē' as u32,
        ('e', 1u8),
    ).insert(
        'é' as u32,
        ('e', 2u8),
    ).insert(
        'ě' as u32,
        ('e', 3u8),
    ).insert(
        'è' as u32,
        ('e', 4u8),
    ).insert(
        'ō' as u32,
        ('o', 1u8),
    ).insert(
        'ó' as u32,
        ('o', 2u8),
    ).insert(
        'ǒ' as u32,
        ('o', 3u8),
    ).insert(
        'ò' as u32,
        ('o', 4u8),
    ).insert(
        'ī' as u32,
        ('i', 1u8),
    ).insert(
        'í' as u32,
        ('i', 2u8),
    ).insert(
        'ǐ' as u32,
        ('i', 3u8),
    ).insert(
        'ì' as u32,
        ('i', 4u8),
    ).insert(
        'ū' as u32,
        ('u', 1u8),
    ).insert(
        'ú' as u32,
        ('u', 2u8),
    ).insert(
        'ǔ' as u32,
        ('u', 3u8),
    ).insert(
        'ù' as u32,
        ('u', 4u8),
    ).insert(
        'ü' as u32,
        ('v', 0u8),
    ).insert(
        'ǘ' as u32,
        ('v', 2u8),
    ).insert(
        'ǚ' as u32,
        ('v', 3u8),
    ).insert(
        'ǜ' as u32,
        ('v', 4u8),
    ).insert(
        'ń' as u32,
        ('n', 2u8),
    ).insert(
        'ň' as u32,
        ('n', 3u8),
    ).insert(
        '\u{e7c7}' as u32,
        ('m', 2u8),
    )
}

/// A letter of the table stands for one of eight ASCII letters and a digit
/// from 0 to 4. The digit 0 is that of `ü` alone, and no two letters stand
/// for the same pair.
pub proof fn lemma_symbol_map(a: u32, b: u32)
    requires
        symbol_map().contains_key(a),
        symbol_map().contains_key(b),
    ensures
        ({
            let letter = symbol_map()[a].0;
            letter == 'a' || letter == 'e' || letter == 'o' || letter == 'i' || letter == 'u'
                || letter == 'v' || letter == 'n' || letter == 'm'
        }),
        symbol_map()[a].1 <= 4,
        symbol_map()[a].1 == 0 <==> a == 'ü' as u32,
        symbol_map()[a] == symbol_map()[b] ==> a == b,
{
}

/// For a letter with a tone the table has the tone that the renderings
/// have; it has the letter too, but for `v` in the place of `ü`. It has no
/// row for a letter without a diacritic, nor for a combining mark.
pub proof fn lemma_symbol_map_tones(c: char)
    requires
        symbol_map().contains_key(c as u32),
    ensures
        c == 'ü' || toned_letter(c) is Some || c == '\u{e7c7}',
        toned_letter(c) matches Some((letter, tone)) ==> symbol_map()[c as u32] == (
            ascii_of(letter),
            tone,
        ),
{
}

/// The table has 27 rows.
pub proof fn lemma_symbol_map_len()
    ensures
        symbol_map().dom().finite(),
        symbol_map().len() == 27,
{
    let m0 = Map::<u32, (char, u8)>::empty();
    let m1 = m0.insert('ā' as u32, ('a', 1u8));
    assert(m1.dom().finite() && m1.len() == 1);
    let m2 = m1.insert('á' as u32, ('a', 2u8));
    assert(m2.dom().finite() && m2.len() == 2);
    let m3 = m2.insert('ǎ' as u32, ('a', 3u8));
    assert(m3.dom().finite() && m3.len() == 3);
    let m4 = m3.insert('à' as u32, ('a', 4u8));
    assert(m4.dom().finite() && m4.len() == 4);
    let m5 = m4.insert('ē' as u32, ('e', 1u8));
    assert(m5.dom().finite() && m5.len() == 5);
    let m6 = m5.insert('é' as u32, ('e', 2u8));
    assert(m6.dom().finite() && m6.len() == 6);
    let m7 = m6.insert('ě' as u32, ('e', 3u8));
    assert(m7.dom().finite() && m7.len() == 7);
    let m8 = m7.insert('è' as u32, ('e', 4u8));
    assert(m8.dom().finite() && m8.len() == 8);
    let m9 = m8.insert('ō' as u32, ('o', 1u8));
    assert(m9.dom().finite() && m9.len() == 9);
    let m10 = m9.insert('ó' as u32, ('o', 2u8));
    assert(m10.dom().finite() && m10.len() == 10);
    let m11 = m10.insert('ǒ' as u32, ('o', 3u8));
    assert(m11.dom().finite() && m11.len() == 11);
    let m12 = m11.insert('ò' as u32, ('o', 4u8));
    assert(m12.dom().finite() && m12.len() == 12);
    let m13 = m12.insert('ī' as u32, ('i', 1u8));
    assert(m13.dom().finite() && m13.len() == 13);
    let m14 = m13.insert('í' as u32, ('i', 2u8));
    assert(m14.dom().finite() && m14.len() == 14);
    let m15 = m14.insert('ǐ' as u32, ('i', 3u8));
    assert(m15.dom().finite() && m15.len() == 15);
    let m16 = m15.insert('ì' as u32, ('i', 4u8));
    assert(m16.dom().finite() && m16.len() == 16);
    let m17 = m16.insert('ū' as u32, ('u', 1u8));
    assert(m17.dom().finite() && m17.len() == 17);
    let m18 = m17.insert('ú' as u32, ('u', 2u8));
    assert(m18.dom().finite() && m18.len() == 18);
    let m19 = m18.insert('ǔ' as u32, ('u', 3u8));
    assert(m19.dom().finite() && m19.len() == 19);
    let m20 = m19.insert('ù' as u32, ('u', 4u8));
    assert(m20.dom().finite() && m20.len() == 20);
    let m21 = m20.insert('ü' as u32, ('v', 0u8));
    assert(m21.dom().finite() && m21.len() == 21);
    let m22 = m21.insert('ǘ' as u32, ('v', 2u8));
    assert(m22.dom().finite() && m22.len() == 22);
    let m23 = m22.insert('ǚ' as u32, ('v', 3u8));
    assert(m23.dom().finite() && m23.len() == 23);
    let m24 = m23.insert('ǜ' as u32, ('v', 4u8));
    assert(m24.dom().finite() && m24.len() == 24);
    let m25 = m24.insert('ń' as u32, ('n', 2u8));
    assert(m25.dom().finite() && m25.len() == 25);
    let m26 = m25.insert('ň' as u32, ('n', 3u8));
    assert(m26.dom().finite() && m26.len() == 26);
    let m27 = m26.insert('\u{e7c7}' as u32, ('m', 2u8));
    assert(m27.dom().finite() && m27.len() == 27);
    assert(symbol_map() == m27);
}

/// The table of the letters with a diacritic: under the code point of each
/// the ASCII letter that writes it, and the digit of its tone.
pub fn init() -> (table: HashMap<u32, (char, u8)>)
    ensures
        table@ == symbol_map(),
{
    broadcast use vstd::std_specs::hash::group_hash_axioms;

    let mut m: HashMap<u32, (char, u8)> = HashMap::new();
    m.insert('ā' as u32, ('a', 1));
    m.insert('á' as u32, ('a', 2));
    m.insert('ǎ' as u32, ('a', 3));
    m.insert('à' as u32, ('a', 4));
    m.insert('ē' as u32, ('e', 1));
    m.insert('é' as u32, ('e', 2));
    m.insert('ě' as u32, ('e', 3));
    m.insert('è' as u32, ('e', 4));
    m.insert('ō' as u32, ('o', 1));
    m.insert('ó' as u32, ('o', 2));
    m.insert('ǒ' as u32, ('o', 3));
    m.insert('ò' as u32, ('o', 4));
    m.insert('ī' as u32, ('i', 1));
    m.insert('í' as u32, ('i', 2));
    m.insert('ǐ' as u32, ('i', 3));
    m.insert('ì' as u32, ('i', 4));
    m.insert('ū' as u32, ('u', 1));
    m.insert('ú' as u32, ('u', 2));
    m.insert('ǔ' as u32, ('u', 3));
    m.insert('ù' as u32, ('u', 4));
    m.insert('ü' as u32, ('v', 0));
    m.insert('ǘ' as u32, ('v', 2));
    m.insert('ǚ' as u32, ('v', 3));
    m.insert('ǜ' as u32, ('v', 4));
    m.insert('ń' as u32, ('n', 2));
    m.insert('ň' as u32, ('n', 3));
    m.insert('\u{e7c7}' as u32, ('m', 2));
    m
}

} // verus!
