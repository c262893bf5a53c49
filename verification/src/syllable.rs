//! The renderings of one syllable, each derived from its toned form.
//!
//! What a rendering is, is stated over `Seq<char>`; the functions that compute
//! one return a `String` whose view is that sequence.
use vstd::prelude::*;
use crate::phonetic_symbol::{
    ascii_of, base_of, get_char_info, is_known_letter, is_letter, is_plain_letter,
    lemma_letter_parts, to_ascii_letter, tone_digit, tone_num, tone_of,
};

verus! {

/// `String::push` of the standard library: the string is afterwards what it
/// was, with `ch` as one more character at its end.
pub assume_specification[ String::push ](s: &mut String, ch: char)
    ensures
        final(s)@ == old(s)@.push(ch),
;

/// What can be wrong with the toned form of a syllable.
#[derive(Clone, Copy, Debug, PartialEq, Eq, Structural)]
pub enum SyllableError {
    /// It is empty, or begins with a combining mark that has no letter to sit on.
    NoLetter,
    /// It holds a character that no syllable is written with.
    UnknownSymbol,
    /// More than one of its letters carries a tone.
    SecondTone,
}

/// The letters of a syllable: every letter without the diacritic of its
/// tone, combining marks left out. The vowels `ü` and `ê` stay as they are.
pub open spec fn letters_of(toned: Seq<char>) -> Seq<char>
    decreases toned.len(),
{
    if toned.len() == 0 {
        Seq::empty()
    } else {
        let front = letters_of(toned.drop_last());
        match base_of(toned.last()) {
            Some(base) => front.push(base),
            None => front,
        }
    }
}

/// `letters` with every letter as the plain rendering writes it.
pub open spec fn in_ascii(letters: Seq<char>) -> Seq<char> {
    Seq::new(letters.len(), |i: int| ascii_of(letters[i]))
}

/// The plain rendering: the letters of the syllable, each of them in ASCII.
pub open spec fn plain_of(toned: Seq<char>) -> Seq<char> {
    in_ascii(letters_of(toned))
}

/// The rendering with the tone's digit right behind the letter that carries it.
pub open spec fn tone_num_of(toned: Seq<char>) -> Seq<char>
    decreases toned.len(),
{
    if toned.len() == 0 {
        Seq::empty()
    } else {
        let front = tone_num_of(toned.drop_last());
        let lettered = match base_of(toned.last()) {
            Some(base) => front.push(base),
            None => front,
        };
        if tone_of(toned.last()) > 0 {
            lettered.push(tone_digit(tone_of(toned.last())))
        } else {
            lettered
        }
    }
}

/// How many letters of `toned` carry a tone.
pub open spec fn tone_count(toned: Seq<char>) -> nat
    decreases toned.len(),
{
    if toned.len() == 0 {
        0
    } else if tone_of(toned.last()) > 0 {
        tone_count(toned.drop_last()) + 1
    } else {
        tone_count(toned.drop_last())
    }
}

/// The tone of the last letter of `toned` that carries one, 0 where none does.
pub open spec fn tone_in(toned: Seq<char>) -> u8
    decreases toned.len(),
{
    if toned.len() == 0 {
        0
    } else if tone_of(toned.last()) > 0 {
        tone_of(toned.last())
    } else {
        tone_in(toned.drop_last())
    }
}

/// The rendering with the tone's digit at the very end: the letters of the
/// syllable, and behind them the digit of its tone where it has one.
pub open spec fn tone_num_end_of(toned: Seq<char>) -> Seq<char> {
    if tone_in(toned) > 0 {
        letters_of(toned).push(tone_digit(tone_in(toned)))
    } else {
        letters_of(toned)
    }
}

/// A consonant that can open a syllable by itself.
pub open spec fn is_initial_letter(c: char) -> bool {
    c == 'b' || c == 'p' || c == 'm' || c == 'f' || c == 'd' || c == 't' || c == 'n' || c == 'l'
        || c == 'g' || c == 'k' || c == 'h' || c == 'j' || c == 'q' || c == 'x' || c == 'r'
        || c == 'z' || c == 'c' || c == 's'
}

/// Whether `s` is one of the initials: a single consonant, or `zh`, `ch`, `sh`.
pub open spec fn is_initial(s: Seq<char>) -> bool {
    (s.len() == 1 && is_initial_letter(s[0])) || (s.len() == 2 && (s[0] == 'z' || s[0] == 'c'
        || s[0] == 's') && s[1] == 'h')
}

/// Where the final begins in a plain rendering: the length of the longest
/// initial that `plain` begins with, 0 where it begins with none.
pub open spec fn split_of(plain: Seq<char>) -> nat {
    if plain.len() >= 2 && is_initial(plain.take(2)) {
        2
    } else if plain.len() >= 1 && is_initial(plain.take(1)) {
        1
    } else {
        0
    }
}

/// Whether every character of `toned` is a letter that a syllable is written with.
pub open spec fn all_letters(toned: Seq<char>) -> bool {
    forall|i: int| 0 <= i < toned.len() ==> is_letter(#[trigger] toned[i])
}

/// Whether `toned` is the toned form of a syllable: letters only, the first of
/// them no combining mark, and at most one of them with a tone.
pub open spec fn is_syllable(toned: Seq<char>) -> bool {
    &&& toned.len() > 0
    &&& base_of(toned[0]) is Some
    &&& all_letters(toned)
    &&& tone_count(toned) <= 1
}

/// What is wrong with `toned`, where it is not the toned form of a syllable.
pub open spec fn syllable_error(toned: Seq<char>) -> Option<SyllableError> {
    if toned.len() == 0 || base_of(toned[0]) is None {
        Some(SyllableError::NoLetter)
    } else if !all_letters(toned) {
        Some(SyllableError::UnknownSymbol)
    } else if tone_count(toned) > 1 {
        Some(SyllableError::SecondTone)
    } else {
        None
    }
}

/// Whether `c` is one of the ten digits.
pub open spec fn is_digit(c: char) -> bool {
    '0' <= c <= '9'
}

/// `s` without its digits.
pub open spec fn without_digits(s: Seq<char>) -> Seq<char>
    decreases s.len(),
{
    if s.len() == 0 {
        Seq::empty()
    } else if is_digit(s.last()) {
        without_digits(s.drop_last())
    } else {
        without_digits(s.drop_last()).push(s.last())
    }
}

/// How many digits `s` holds.
pub open spec fn digit_count(s: Seq<char>) -> nat
    decreases s.len(),
{
    if s.len() == 0 {
        0
    } else if is_digit(s.last()) {
        digit_count(s.drop_last()) + 1
    } else {
        digit_count(s.drop_last())
    }
}

/// The parts of a sequence with one more at its end.
proof fn lemma_push_parts(s: Seq<char>, c: char)
    ensures
        s.push(c).drop_last() == s,
        s.push(c).last() == c,
{
    assert(s.push(c).drop_last() =~= s);
}

/// The parts of a prefix that is one longer than another.
proof fn lemma_take_next(s: Seq<char>, i: int)
    requires
        0 <= i < s.len(),
    ensures
        s.take(i + 1).drop_last() == s.take(i),
        s.take(i + 1).last() == s[i],
{
    assert(s.take(i + 1).drop_last() =~= s.take(i));
}

/// The plain rendering has a letter for every letter of the syllable. The
/// rendering with the digit behind its letter has these letters too, and one
/// digit more for every tone.
pub proof fn lemma_rendering_lengths(toned: Seq<char>)
    ensures
        plain_of(toned).len() == letters_of(toned).len(),
        letters_of(toned).len() <= toned.len(),
        tone_num_of(toned).len() == letters_of(toned).len() + tone_count(toned),
        toned.len() > 0 && base_of(toned[0]) is Some ==> letters_of(toned).len() > 0,
    decreases toned.len(),
{
    if toned.len() > 0 {
        lemma_rendering_lengths(toned.drop_last());
        if toned.len() > 1 {
            assert(toned.drop_last()[0] == toned[0]);
        }
    }
}

/// The final begins within the plain rendering, and so within the toned
/// form and within the rendering with the digit behind its letter, which
/// are as long at least.
pub proof fn lemma_split_in_renderings(toned: Seq<char>)
    ensures
        split_of(plain_of(toned)) <= plain_of(toned).len(),
        split_of(plain_of(toned)) <= toned.len(),
        split_of(plain_of(toned)) <= tone_num_of(toned).len(),
{
    lemma_rendering_lengths(toned);
}

/// The letters of a syllable are letters without a tone, and no digits; in
/// the plain rendering every one of them is an ASCII lower-case letter.
pub proof fn lemma_plain_letters(toned: Seq<char>)
    requires
        all_letters(toned),
    ensures
        forall|i: int|
            0 <= i < letters_of(toned).len() ==> is_plain_letter(#[trigger] letters_of(toned)[i]),
        forall|i: int|
            0 <= i < plain_of(toned).len() ==> 'a' <= (#[trigger] plain_of(toned)[i]) <= 'z',
        digit_count(letters_of(toned)) == 0,
        without_digits(letters_of(toned)) == letters_of(toned),
    decreases toned.len(),
{
    if toned.len() > 0 {
        let front = toned.drop_last();
        assert(all_letters(front)) by {
            assert forall|i: int| 0 <= i < front.len() implies is_letter(#[trigger] front[i]) by {
                assert(front[i] == toned[i]);
            }
        }
        lemma_plain_letters(front);
        lemma_letter_parts(toned.last());
        if let Some(base) = base_of(toned.last()) {
            lemma_push_parts(letters_of(front), base);
        }
        assert forall|i: int| 0 <= i < plain_of(toned).len() implies 'a' <= (
        #[trigger] plain_of(toned)[i]) <= 'z' by {
            if i < letters_of(front).len() {
                assert(plain_of(front)[i] == plain_of(toned)[i]);
            }
        }
    }
}

/// In the two numbered renderings the tone is the only digit: there are as
/// many digits as letters with a tone, and without them the rendering is
/// the letters of the syllable.
pub proof fn lemma_digits_are_tones(toned: Seq<char>)
    requires
        all_letters(toned),
    ensures
        digit_count(tone_num_of(toned)) == tone_count(toned),
        without_digits(tone_num_of(toned)) == letters_of(toned),
        tone_in(toned) <= 4,
        tone_in(toned) > 0 <==> tone_count(toned) > 0,
        tone_count(toned) <= 1 ==> digit_count(tone_num_end_of(toned)) == tone_count(toned),
        without_digits(tone_num_end_of(toned)) == letters_of(toned),
    decreases toned.len(),
{
    lemma_plain_letters(toned);
    if toned.len() > 0 {
        let front = toned.drop_last();
        assert(all_letters(front)) by {
            assert forall|i: int| 0 <= i < front.len() implies is_letter(#[trigger] front[i]) by {
                assert(front[i] == toned[i]);
            }
        }
        lemma_digits_are_tones(front);
        lemma_letter_parts(toned.last());
        let lettered = match base_of(toned.last()) {
            Some(base) => tone_num_of(front).push(base),
            None => tone_num_of(front),
        };
        if let Some(base) = base_of(toned.last()) {
            lemma_push_parts(tone_num_of(front), base);
            lemma_push_parts(letters_of(front), base);
            assert(!is_digit(base));
        }
        assert(digit_count(lettered) == digit_count(tone_num_of(front)));
        assert(without_digits(lettered) == letters_of(toned));
        if tone_of(toned.last()) > 0 {
            let digit = tone_digit(tone_of(toned.last()));
            lemma_push_parts(lettered, digit);
            assert(is_digit(digit));
            assert(digit_count(lettered.push(digit)) == digit_count(lettered) + 1);
            assert(without_digits(lettered.push(digit)) == without_digits(lettered));
        }
    }
    if tone_in(toned) > 0 {
        lemma_push_parts(letters_of(toned), tone_digit(tone_in(toned)));
    }
}

/// Of a syllable with a tone each numbered rendering holds exactly one
/// digit, one from 1 to 4. Without the digit, and with every letter in
/// ASCII, the rendering is the plain one. In the rendering with the digit at
/// the end it is the last character.
pub proof fn lemma_one_tone_digit(toned: Seq<char>)
    requires
        is_syllable(toned),
        tone_count(toned) == 1,
    ensures
        digit_count(tone_num_of(toned)) == 1,
        digit_count(tone_num_end_of(toned)) == 1,
        in_ascii(without_digits(tone_num_of(toned))) == plain_of(toned),
        in_ascii(without_digits(tone_num_end_of(toned))) == plain_of(toned),
        tone_num_end_of(toned) == letters_of(toned).push(tone_digit(tone_in(toned))),
        '1' <= tone_digit(tone_in(toned)) <= '4',
{
    lemma_digits_are_tones(toned);
}

/// Of a syllable without a tone both numbered renderings are its letters,
/// without a digit; with every letter in ASCII they are the plain rendering.
pub proof fn lemma_no_tone_no_digit(toned: Seq<char>)
    requires
        is_syllable(toned),
        tone_count(toned) == 0,
    ensures
        tone_num_of(toned) == letters_of(toned),
        tone_num_end_of(toned) == letters_of(toned),
        digit_count(letters_of(toned)) == 0,
        in_ascii(tone_num_of(toned)) == plain_of(toned),
        in_ascii(tone_num_end_of(toned)) == plain_of(toned),
    decreases toned.len(),
{
    lemma_digits_are_tones(toned);
    lemma_same_without_tone(toned);
}

/// Without a tone there is no digit to tell the two renderings apart.
proof fn lemma_same_without_tone(toned: Seq<char>)
    requires
        tone_count(toned) == 0,
    ensures
        tone_num_of(toned) == letters_of(toned),
    decreases toned.len(),
{
    if toned.len() > 0 {
        lemma_same_without_tone(toned.drop_last());
    }
}

/// The letters of `toned`: what both the plain rendering and the rendering
/// with the digit at the end are made of.
fn render_letters(toned: &str) -> (letters: Vec<char>)
    ensures
        letters@ == letters_of(toned@),
{
    let mut letters: Vec<char> = Vec::new();
    for ch in it: toned.chars()
        invariant
            it.seq() == toned@,
            letters@ == letters_of(toned@.take(it.index() as int)),
    {
        proof {
            lemma_take_next(toned@, it.index() as int);
        }
        let (base, _) = get_char_info(ch);
        if let Some(letter) = base {
            letters.push(letter);
        }
    }
    assert(toned@.take(toned@.len() as int) == toned@);
    letters
}

/// The plain rendering of `toned`.
pub fn render_plain(toned: &str) -> (plain: String)
    ensures
        plain@ == plain_of(toned@),
{
    let letters = render_letters(toned);
    let mut plain = String::new();
    let mut i: usize = 0;
    while i < letters.len()
        invariant
            i <= letters.len(),
            plain@ == in_ascii(letters@.take(i as int)),
        decreases letters.len() - i,
    {
        plain.push(to_ascii_letter(letters[i]));
        assert(in_ascii(letters@.take(i + 1)) =~= in_ascii(letters@.take(i as int)).push(
            ascii_of(letters[i as int]),
        ));
        i += 1;
    }
    assert(letters@.take(letters.len() as int) =~= letters@);
    plain
}

/// The rendering of `toned` with the tone's digit behind the letter that carries it.
pub fn render_tone_num(toned: &str) -> (numbered: String)
    ensures
        numbered@ == tone_num_of(toned@),
{
    let mut numbered = String::new();
    for ch in it: toned.chars()
        invariant
            it.seq() == toned@,
            numbered@ == tone_num_of(toned@.take(it.index() as int)),
    {
        proof {
            lemma_take_next(toned@, it.index() as int);
        }
        let (base, tone) = get_char_info(ch);
        if let Some(letter) = base {
            numbered.push(letter);
        }
        if tone > 0 {
            numbered.push(tone_num(tone));
        }
    }
    assert(toned@.take(toned@.len() as int) == toned@);
    numbered
}

/// The rendering of `toned` with the tone's digit at the end, unless more than
/// one letter of `toned` carries a tone.
pub fn render_tone_num_end(toned: &str) -> (numbered: Option<String>)
    ensures
        numbered is Some <==> tone_count(toned@) <= 1,
        numbered matches Some(s) ==> s@ == tone_num_end_of(toned@),
{
    let mut letters = String::new();
    let mut tone: u8 = 0;
    let mut second = false;
    for ch in it: toned.chars()
        invariant
            it.seq() == toned@,
            letters@ == letters_of(toned@.take(it.index() as int)),
            tone == tone_in(toned@.take(it.index() as int)),
            tone <= 4,
            second <==> tone_count(toned@.take(it.index() as int)) > 1,
            tone > 0 <==> tone_count(toned@.take(it.index() as int)) > 0,
    {
        proof {
            lemma_take_next(toned@, it.index() as int);
        }
        let (base, this_tone) = get_char_info(ch);
        if let Some(letter) = base {
            letters.push(letter);
        }
        if this_tone > 0 {
            if tone > 0 {
                second = true;
            }
            tone = this_tone;
        }
    }
    assert(toned@.take(toned@.len() as int) == toned@);
    if second {
        None
    } else {
        if tone > 0 {
            letters.push(tone_num(tone));
        }
        Some(letters)
    }
}

/// Where the final begins in the plain rendering `plain`.
pub fn split_offset(plain: &str) -> (split: usize)
    ensures
        split == split_of(plain@),
{
    let len = plain.unicode_len();
    if len == 0 {
        return 0;
    }
    let first = plain.get_char(0);
    if len >= 2 && (first == 'z' || first == 'c' || first == 's') && plain.get_char(1) == 'h' {
        2
    } else if first == 'b' || first == 'p' || first == 'm' || first == 'f' || first == 'd' || first
        == 't' || first == 'n' || first == 'l' || first == 'g' || first == 'k' || first == 'h'
        || first == 'j' || first == 'q' || first == 'x' || first == 'r' || first == 'z' || first
        == 'c' || first == 's' {
        1
    } else {
        0
    }
}

/// Tells whether `toned` is the toned form of a syllable, and what is wrong
/// with it where it is not.
pub fn check_syllable(toned: &str) -> (checked: Result<(), SyllableError>)
    ensures
        checked is Ok <==> is_syllable(toned@),
        checked matches Err(e) ==> syllable_error(toned@) == Some(e),
{
    let mut known = true;
    let mut toned_once = false;
    let mut second = false;
    let mut first_base: Option<char> = None;
    let mut empty = true;
    for ch in it: toned.chars()
        invariant
            it.seq() == toned@,
            empty <==> it.index() == 0,
            known <==> all_letters(toned@.take(it.index() as int)),
            toned_once <==> tone_count(toned@.take(it.index() as int)) > 0,
            second <==> tone_count(toned@.take(it.index() as int)) > 1,
            it.index() > 0 ==> first_base == base_of(toned@[0]),
    {
        proof {
            lemma_take_next(toned@, it.index() as int);
            let before = toned@.take(it.index() as int);
            let after = toned@.take(it.index() + 1);
            assert(forall|i: int| 0 <= i < before.len() ==> before[i] == after[i]);
            if all_letters(after) {
                assert(forall|i: int| 0 <= i < before.len() ==> is_letter(#[trigger] before[i]))
                    by {
                    assert(forall|i: int|
                        0 <= i < before.len() ==> is_letter(#[trigger] after[i]));
                }
                assert(is_letter(after[it.index() as int]));
            }
        }
        let (base, tone) = get_char_info(ch);
        if empty {
            first_base = base;
            empty = false;
        }
        if !is_known_letter(ch) {
            known = false;
        }
        if tone > 0 {
            if toned_once {
                second = true;
            }
            toned_once = true;
        }
    }
    assert(toned@.take(toned@.len() as int) == toned@);
    if empty || first_base.is_none() {
        Err(SyllableError::NoLetter)
    } else if !known {
        Err(SyllableError::UnknownSymbol)
    } else if second {
        Err(SyllableError::SecondTone)
    } else {
        Ok(())
    }
}

} // verus!
