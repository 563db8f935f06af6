//! Japanese character classes, kana script conversion, and the check that
//! keeps dubious automatic conversions out of the composed text.

use vstd::prelude::*;
use crate::text::chars_of;

verus! {

/// `char::from_u32` turns a code point into a character; it fails exactly on
/// the numbers that are no Unicode scalar value.
pub assume_specification[ char::from_u32 ](i: u32) -> (r: Option<char>)
    ensures
        r is Some <==> (i < 0xD800 || 0xE000 <= i <= 0x10FFFF),
        r matches Some(c) ==> c == i as char,
;

/// Characters of the Hiragana block.
pub open spec fn hiragana(c: char) -> bool {
    '\u{3040}' <= c <= '\u{309F}'
}

/// Characters of the Katakana block, the middle dot left out.
pub open spec fn full_katakana(c: char) -> bool {
    '\u{30A0}' <= c <= '\u{30FF}' && c != '\u{30FB}'
}

/// Characters of the common ideograph blocks.
pub open spec fn kanji(c: char) -> bool {
    '\u{3400}' <= c <= '\u{9FFF}'
}

/// Half-width katakana letters and their sound marks.
pub open spec fn half_katakana(c: char) -> bool {
    '\u{FF66}' <= c <= '\u{FF9F}'
}

/// Either kana script.
pub open spec fn kana(c: char) -> bool {
    hiragana(c) || full_katakana(c)
}

/// Latin letters of ASCII.
pub open spec fn ascii_letter(c: char) -> bool {
    'a' <= c <= 'z' || 'A' <= c <= 'Z'
}

/// Every character of `s` satisfies `p`.
pub open spec fn all_chars(s: Seq<char>, p: spec_fn(char) -> bool) -> bool {
    forall|i: int| 0 <= i < s.len() ==> p(#[trigger] s[i])
}

/// Some character of `s` satisfies `p`.
pub open spec fn any_char(s: Seq<char>, p: spec_fn(char) -> bool) -> bool {
    exists|i: int| 0 <= i < s.len() && p(#[trigger] s[i])
}

/// How many characters of `s` satisfy `p`.
pub open spec fn count_chars(s: Seq<char>, p: spec_fn(char) -> bool) -> nat {
    s.filter(p).len()
}

/// A run of katakana begins at position `i` of `s`.
pub open spec fn katakana_run_starts(s: Seq<char>, i: int) -> bool {
    0 <= i < s.len() && full_katakana(s[i]) && (i == 0 || !full_katakana(s[i - 1]))
}

/// `s` holds at least two runs of katakana.
pub open spec fn multiple_katakana_runs(s: Seq<char>) -> bool {
    exists|i: int, j: int|
        i < j && #[trigger] katakana_run_starts(s, i) && #[trigger] katakana_run_starts(s, j)
}

/// An automatic conversion of `reading` to `converted` that must not be shown
/// unasked: an empty one, or, for a reading all in kana, one with Latin
/// letters, or one with kanji that is broken into several katakana runs that
/// make up a third of it or more.
pub open spec fn suspicious(reading: Seq<char>, converted: Seq<char>) -> bool {
    ||| converted.len() == 0
    ||| all_chars(reading, |c: char| kana(c)) && {
        ||| any_char(converted, |c: char| ascii_letter(c))
        ||| {
            &&& any_char(converted, |c: char| kanji(c))
            &&& multiple_katakana_runs(converted)
            &&& count_chars(converted, |c: char| full_katakana(c)) * 3 >= converted.len()
        }
    }
}

/// The katakana letter of a hiragana letter; any other character unchanged.
pub open spec fn katakana_of(c: char) -> char {
    if '\u{3041}' <= c <= '\u{3096}' || '\u{309D}' <= c <= '\u{309E}' {
        (c as int + 0x60) as char
    } else {
        c
    }
}

/// The hiragana letter of a katakana letter; any other character unchanged.
pub open spec fn hiragana_of(c: char) -> char {
    if '\u{30A1}' <= c <= '\u{30F6}' || '\u{30FD}' <= c <= '\u{30FE}' {
        (c as int - 0x60) as char
    } else {
        c
    }
}

/// A text written in katakana in place of hiragana.
pub open spec fn in_katakana(s: Seq<char>) -> Seq<char> {
    Seq::new(s.len(), |i: int| katakana_of(s[i]))
}

/// A text written in hiragana in place of katakana.
pub open spec fn in_hiragana(s: Seq<char>) -> Seq<char> {
    Seq::new(s.len(), |i: int| hiragana_of(s[i]))
}

/// The label of a candidate that is written in one kana script throughout.
pub open spec fn width_label(s: Seq<char>) -> Option<Seq<char>> {
    if s.len() > 0 && all_chars(s, |c: char| hiragana(c)) {
        Some("[全]ひらがな"@)
    } else if s.len() > 0 && all_chars(s, |c: char| full_katakana(c)) {
        Some("[全]カタカナ"@)
    } else if s.len() > 0 && all_chars(s, |c: char| half_katakana(c)) {
        Some("[半]カタカナ"@)
    } else {
        None
    }
}

pub fn is_hiragana_char(c: char) -> (r: bool)
    ensures
        r == hiragana(c),
{
    '\u{3040}' <= c && c <= '\u{309F}'
}

pub fn is_full_katakana_char(c: char) -> (r: bool)
    ensures
        r == full_katakana(c),
{
    '\u{30A0}' <= c && c <= '\u{30FF}' && c != '\u{30FB}'
}

pub fn is_kanji_char(c: char) -> (r: bool)
    ensures
        r == kanji(c),
{
    '\u{3400}' <= c && c <= '\u{9FFF}'
}

/// Whether the text holds two or more separate runs of katakana.
pub fn has_multiple_katakana_runs(text: &str) -> (r: bool)
    ensures
        r == multiple_katakana_runs(text@),
{
    let chars = chars_of(text);
    let mut runs: usize = 0;
    let mut in_run: bool = false;
    let ghost mut first: int = 0;
    let mut i: usize = 0;
    while i < chars.len()
        invariant
            i <= chars@.len(),
            chars@ == text@,
            in_run == (i > 0 && full_katakana(chars@[i - 1])),
            runs <= 1,
            runs == 0 ==> forall|k: int| k < i ==> !katakana_run_starts(chars@, k),
            runs == 1 ==> 0 <= first < i && katakana_run_starts(chars@, first),
            runs == 1 ==> forall|k: int| k < i && k != first ==> !katakana_run_starts(chars@, k),
        decreases chars@.len() - i,
    {
        let c = chars[i];
        if is_full_katakana_char(c) {
            if !in_run {
                assert(katakana_run_starts(chars@, i as int));
                runs = runs + 1;
                if runs >= 2 {
                    return true;
                }
                proof {
                    first = i as int;
                }
            }
            in_run = true;
        } else {
            in_run = false;
        }
        i = i + 1;
    }
    proof {
        if multiple_katakana_runs(text@) {
            let (a, b) = choose|a: int, b: int|
                a < b && #[trigger] katakana_run_starts(text@, a) && #[trigger] katakana_run_starts(
                    text@,
                    b,
                );
            assert(katakana_run_starts(chars@, a) && katakana_run_starts(chars@, b));
        }
    }
    false
}

/// Whether an automatic conversion must not replace the reading unasked.
///
/// A normal loanword such as `プログラム所属` has one katakana run and passes;
/// a sentence broken into katakana fragments around kanji does not, nor does
/// Latin text guessed for a kana reading.
pub fn suspicious_auto_conversion(reading: &str, converted: &str) -> (r: bool)
    ensures
        r == suspicious(reading@, converted@),
{
    let converted_chars = chars_of(converted);
    if converted_chars.len() == 0 {
        return true;
    }
    let reading_chars = chars_of(reading);
    let mut k: usize = 0;
    while k < reading_chars.len()
        invariant
            k <= reading_chars@.len(),
            reading_chars@ == reading@,
            converted@.len() > 0,
            forall|i: int| 0 <= i < k ==> kana(#[trigger] reading@[i]),
        decreases reading_chars@.len() - k,
    {
        let c = reading_chars[k];
        if !(is_hiragana_char(c) || is_full_katakana_char(c)) {
            proof {
                let p = |c: char| kana(c);
                assert(!p(reading@[k as int]));
            }
            return false;
        }
        k = k + 1;
    }
    assert(all_chars(reading@, |c: char| kana(c)));

    let ghost is_letter = |c: char| ascii_letter(c);
    let ghost is_kata = |c: char| full_katakana(c);
    let ghost is_kan = |c: char| kanji(c);
    let mut total: usize = 0;
    let mut katakana: usize = 0;
    let mut kanji_seen: bool = false;
    while total < converted_chars.len()
        invariant
            total <= converted_chars@.len(),
            converted_chars@ == converted@,
            converted@.len() > 0,
            is_letter == (|c: char| ascii_letter(c)),
            is_kata == (|c: char| full_katakana(c)),
            is_kan == (|c: char| kanji(c)),
            all_chars(reading@, |c: char| kana(c)),
            forall|i: int| 0 <= i < total ==> !is_letter(#[trigger] converted@[i]),
            katakana <= total,
            katakana == count_chars(converted@.take(total as int), is_kata),
            kanji_seen == any_char(converted@.take(total as int), is_kan),
        decreases converted_chars@.len() - total,
    {
        let c = converted_chars[total];
        if ('a' <= c && c <= 'z') || ('A' <= c && c <= 'Z') {
            assert(is_letter(converted@[total as int]));
            return true;
        }
        proof {
            let before = converted@.take(total as int);
            let after = converted@.take(total + 1);
            assert(after == before.push(c));
            assert(after.drop_last() == before);
            reveal(Seq::filter);
            if any_char(before, is_kan) {
                let i = choose|i: int| 0 <= i < before.len() && is_kan(#[trigger] before[i]);
                assert(is_kan(after[i]));
            }
            if is_kan(c) {
                assert(is_kan(after[total as int]));
            }
            if any_char(after, is_kan) && !is_kan(c) {
                let i = choose|i: int| 0 <= i < after.len() && is_kan(#[trigger] after[i]);
                assert(is_kan(before[i]));
            }
        }
        if is_full_katakana_char(c) {
            katakana = katakana + 1;
        } else if is_kanji_char(c) {
            kanji_seen = true;
        }
        total = total + 1;
    }
    assert(converted@.take(total as int) == converted@);
    assert(!any_char(converted@, is_letter));
    kanji_seen && has_multiple_katakana_runs(converted) && katakana as u128 * 3 >= total as u128
}

/// Whether the text holds any kana.
pub fn contains_kana(text: &str) -> (r: bool)
    ensures
        r == any_char(text@, |c: char| kana(c)),
{
    let chars = chars_of(text);
    let mut i: usize = 0;
    while i < chars.len()
        invariant
            i <= chars@.len(),
            chars@ == text@,
            forall|k: int| 0 <= k < i ==> !kana(#[trigger] text@[k]),
        decreases chars@.len() - i,
    {
        if is_hiragana_char(chars[i]) || is_full_katakana_char(chars[i]) {
            proof {
                let p = |c: char| kana(c);
                assert(p(text@[i as int]));
            }
            return true;
        }
        i = i + 1;
    }
    false
}

fn all_hiragana(chars: &Vec<char>) -> (r: bool)
    ensures
        r == all_chars(chars@, |c: char| hiragana(c)),
{
    let mut i: usize = 0;
    while i < chars.len()
        invariant
            i <= chars@.len(),
            forall|k: int| 0 <= k < i ==> hiragana(#[trigger] chars@[k]),
        decreases chars@.len() - i,
    {
        if !is_hiragana_char(chars[i]) {
            proof {
                let p = |c: char| hiragana(c);
                assert(!p(chars@[i as int]));
            }
            return false;
        }
        i = i + 1;
    }
    true
}

fn all_full_katakana(chars: &Vec<char>) -> (r: bool)
    ensures
        r == all_chars(chars@, |c: char| full_katakana(c)),
{
    let mut i: usize = 0;
    while i < chars.len()
        invariant
            i <= chars@.len(),
            forall|k: int| 0 <= k < i ==> full_katakana(#[trigger] chars@[k]),
        decreases chars@.len() - i,
    {
        if !is_full_katakana_char(chars[i]) {
            proof {
                let p = |c: char| full_katakana(c);
                assert(!p(chars@[i as int]));
            }
            return false;
        }
        i = i + 1;
    }
    true
}

fn all_half_katakana(chars: &Vec<char>) -> (r: bool)
    ensures
        r == all_chars(chars@, |c: char| half_katakana(c)),
{
    let mut i: usize = 0;
    while i < chars.len()
        invariant
            i <= chars@.len(),
            forall|k: int| 0 <= k < i ==> half_katakana(#[trigger] chars@[k]),
        decreases chars@.len() - i,
    {
        if !('\u{FF66}' <= chars[i] && chars[i] <= '\u{FF9F}') {
            proof {
                let p = |c: char| half_katakana(c);
                assert(!p(chars@[i as int]));
            }
            return false;
        }
        i = i + 1;
    }
    true
}

/// The script label of a candidate in one kana script, or none for a text
/// that mixes scripts or holds kanji or punctuation.
pub fn width_annotation(text: &str) -> (r: Option<&'static str>)
    ensures
        match r {
            Some(label) => width_label(text@) == Some(label@),
            None => width_label(text@) is None,
        },
{
    let chars = chars_of(text);
    if chars.len() == 0 {
        None
    } else if all_hiragana(&chars) {
        Some("[全]ひらがな")
    } else if all_full_katakana(&chars) {
        Some("[全]カタカナ")
    } else if all_half_katakana(&chars) {
        Some("[半]カタカナ")
    } else {
        None
    }
}

fn shifted(c: char, up: bool) -> (r: char)
    ensures
        up ==> r == katakana_of(c),
        !up ==> r == hiragana_of(c),
{
    let code: u32 = c as u32;
    let moved: u32 = if up {
        if ('\u{3041}' <= c && c <= '\u{3096}') || ('\u{309D}' <= c && c <= '\u{309E}') {
            code + 0x60
        } else {
            code
        }
    } else {
        if ('\u{30A1}' <= c && c <= '\u{30F6}') || ('\u{30FD}' <= c && c <= '\u{30FE}') {
            code - 0x60
        } else {
            code
        }
    };
    match char::from_u32(moved) {
        Some(r) => r,
        None => c,
    }
}

/// The text with every hiragana letter written in katakana.
pub fn hiragana_to_katakana(text: &str) -> (r: String)
    ensures
        r@ == in_katakana(text@),
{
    let chars = chars_of(text);
    let mut r = String::new();
    let mut i: usize = 0;
    while i < chars.len()
        invariant
            i <= chars@.len(),
            chars@ == text@,
            r@ == in_katakana(text@).take(i as int),
        decreases chars@.len() - i,
    {
        r.push(shifted(chars[i], true));
        i = i + 1;
        assert(in_katakana(text@).take(i as int) == in_katakana(text@).take(i - 1).push(
            katakana_of(text@[i - 1]),
        ));
    }
    r
}

/// The text with every katakana letter written in hiragana.
pub fn katakana_to_hiragana(text: &str) -> (r: String)
    ensures
        r@ == in_hiragana(text@),
{
    let chars = chars_of(text);
    let mut r = String::new();
    let mut i: usize = 0;
    while i < chars.len()
        invariant
            i <= chars@.len(),
            chars@ == text@,
            r@ == in_hiragana(text@).take(i as int),
        decreases chars@.len() - i,
    {
        r.push(shifted(chars[i], false));
        i = i + 1;
        assert(in_hiragana(text@).take(i as int) == in_hiragana(text@).take(i - 1).push(
            hiragana_of(text@[i - 1]),
        ));
    }
    r
}

} // verus!
