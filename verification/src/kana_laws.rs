//! What the kana scripts are, told by the codes of their characters.

use vstd::prelude::*;
use crate::kana;

verus! {

/// A character of the Hiragana block.
pub open spec fn in_hiragana_block(c: char) -> bool {
    0x3040 <= c as int <= 0x309f
}

/// A character of the Katakana block but the middle dot.
pub open spec fn in_katakana_block(c: char) -> bool {
    0x30a0 <= c as int <= 0x30ff && c as int != 0x30fb
}

/// The classes of characters, by their codes.
pub proof fn law_classes_of_characters(c: char)
    ensures
        kana::hiragana(c) <==> in_hiragana_block(c),
        kana::full_katakana(c) <==> in_katakana_block(c),
        kana::kanji(c) <==> 0x3400 <= c as int <= 0x9fff,
        kana::half_katakana(c) <==> 0xff66 <= c as int <= 0xff9f,
        kana::kana(c) <==> in_hiragana_block(c) || in_katakana_block(c),
{
}

/// Writing a text in katakana changes its hiragana letters alone, each to the
/// letter of the same sound, which stands the same distance behind it.
pub proof fn law_writing_in_katakana(s: Seq<char>, i: int)
    requires
        0 <= i < s.len(),
    ensures
        kana::in_katakana(s).len() == s.len(),
        0x3041 <= s[i] as int <= 0x3096 || 0x309d <= s[i] as int <= 0x309e
            ==> kana::in_katakana(s)[i] as int == s[i] as int + 0x60,
        !(0x3041 <= s[i] as int <= 0x3096 || 0x309d <= s[i] as int <= 0x309e)
            ==> kana::in_katakana(s)[i] == s[i],
{
}

/// Writing a text in hiragana changes its katakana letters alone, each to the
/// letter of the same sound.
pub proof fn law_writing_in_hiragana(s: Seq<char>, i: int)
    requires
        0 <= i < s.len(),
    ensures
        kana::in_hiragana(s).len() == s.len(),
        0x30a1 <= s[i] as int <= 0x30f6 || 0x30fd <= s[i] as int <= 0x30fe
            ==> kana::in_hiragana(s)[i] as int == s[i] as int - 0x60,
        !(0x30a1 <= s[i] as int <= 0x30f6 || 0x30fd <= s[i] as int <= 0x30fe)
            ==> kana::in_hiragana(s)[i] == s[i],
{
}

/// A text without katakana letters comes back from katakana, one without
/// hiragana letters from hiragana.
pub proof fn law_scripts_undo_each_other(s: Seq<char>)
    ensures
        (forall|i: int| 0 <= i < s.len() ==> !(0x30a1 <= (#[trigger] s[i]) as int <= 0x30fe))
            ==> kana::in_hiragana(kana::in_katakana(s)) == s,
        (forall|i: int| 0 <= i < s.len() ==> !(0x3041 <= (#[trigger] s[i]) as int <= 0x309e))
            ==> kana::in_katakana(kana::in_hiragana(s)) == s,
{
    if forall|i: int| 0 <= i < s.len() ==> !(0x30a1 <= (#[trigger] s[i]) as int <= 0x30fe) {
        assert forall|i: int| 0 <= i < s.len() implies kana::in_hiragana(kana::in_katakana(s))[i]
            == s[i] by {
            law_writing_in_katakana(s, i);
            law_writing_in_hiragana(kana::in_katakana(s), i);
        }
        assert(kana::in_hiragana(kana::in_katakana(s)) =~= s);
    }
    if forall|i: int| 0 <= i < s.len() ==> !(0x3041 <= (#[trigger] s[i]) as int <= 0x309e) {
        assert forall|i: int| 0 <= i < s.len() implies kana::in_katakana(kana::in_hiragana(s))[i]
            == s[i] by {
            law_writing_in_hiragana(s, i);
            law_writing_in_katakana(kana::in_hiragana(s), i);
        }
        assert(kana::in_katakana(kana::in_hiragana(s)) =~= s);
    }
}

/// The label of a candidate: that of its script, where it is written in one
/// kana script throughout, and none else.
pub proof fn law_labels_tell_the_script(s: Seq<char>)
    ensures
        ({
            let all_hiragana = forall|i: int| 0 <= i < s.len() ==> in_hiragana_block(#[trigger] s[i]);
            let all_katakana = forall|i: int| 0 <= i < s.len() ==> in_katakana_block(#[trigger] s[i]);
            let all_half = forall|i: int|
                0 <= i < s.len() ==> 0xff66 <= (#[trigger] s[i]) as int <= 0xff9f;
            &&& s.len() > 0 && all_hiragana ==> kana::width_label(s) == Some("[全]ひらがな"@)
            &&& s.len() > 0 && all_katakana ==> kana::width_label(s) == Some("[全]カタカナ"@)
            &&& s.len() > 0 && all_half ==> kana::width_label(s) == Some("[半]カタカナ"@)
            &&& s.len() == 0 || !all_hiragana && !all_katakana && !all_half ==> kana::width_label(
                s,
            ) is None
        }),
{
    let hira = |c: char| kana::hiragana(c);
    let kata = |c: char| kana::full_katakana(c);
    let half = |c: char| kana::half_katakana(c);
    if s.len() > 0 {
        assert(kana::all_chars(s, hira) <==> (forall|i: int|
            0 <= i < s.len() ==> in_hiragana_block(#[trigger] s[i]))) by {
            if kana::all_chars(s, hira) {
                assert forall|i: int| 0 <= i < s.len() implies in_hiragana_block(#[trigger] s[i]) by {
                    assert(hira(s[i]));
                }
            }
        }
        assert(kana::all_chars(s, kata) <==> (forall|i: int|
            0 <= i < s.len() ==> in_katakana_block(#[trigger] s[i]))) by {
            if kana::all_chars(s, kata) {
                assert forall|i: int| 0 <= i < s.len() implies in_katakana_block(#[trigger] s[i]) by {
                    assert(kata(s[i]));
                }
            }
        }
        assert(kana::all_chars(s, half) <==> (forall|i: int|
            0 <= i < s.len() ==> 0xff66 <= (#[trigger] s[i]) as int <= 0xff9f)) by {
            if kana::all_chars(s, half) {
                assert forall|i: int| 0 <= i < s.len() implies 0xff66 <= (
                #[trigger] s[i]) as int <= 0xff9f by {
                    assert(half(s[i]));
                }
            }
        }
        if kana::all_chars(s, kata) {
            assert(in_katakana_block(s[0]));
            assert(!in_hiragana_block(s[0]));
        }
        if kana::all_chars(s, half) {
            assert(0xff66 <= s[0] as int);
            assert(!in_hiragana_block(s[0]));
            assert(!in_katakana_block(s[0]));
        }
    }
}

/// The number of katakana among the first `k` characters.
pub open spec fn katakana_among(s: Seq<char>, k: int) -> int
    decreases k,
{
    if k <= 0 {
        0
    } else {
        katakana_among(s, k - 1) + if in_katakana_block(s[k - 1]) {
            1int
        } else {
            0
        }
    }
}

proof fn lemma_katakana_among(s: Seq<char>, k: int)
    requires
        0 <= k <= s.len(),
    ensures
        katakana_among(s, k) == kana::count_chars(s.take(k), |c: char| kana::full_katakana(c)),
    decreases k,
{
    let p = |c: char| kana::full_katakana(c);
    reveal(Seq::filter);
    if k > 0 {
        lemma_katakana_among(s, k - 1);
        assert(s.take(k).drop_last() =~= s.take(k - 1));
        assert(s.take(k).last() == s[k - 1]);
    }
}

proof fn lemma_run_begins(s: Seq<char>, from: int, at: int) -> (i: int)
    requires
        0 <= from < at < s.len(),
        !in_katakana_block(s[from]),
        in_katakana_block(s[at]),
    ensures
        from < i <= at,
        kana::katakana_run_starts(s, i),
    decreases at - from,
{
    if at == from + 1 || !in_katakana_block(s[at - 1]) {
        at
    } else {
        lemma_run_begins(s, from, at - 1)
    }
}

/// Katakana that is broken off: something else stands between katakana.
pub open spec fn broken_katakana(s: Seq<char>) -> bool {
    exists|i: int, j: int, k: int|
        #![trigger s[i], s[j], s[k]]
        0 <= i < j < k < s.len() && in_katakana_block(s[i]) && !in_katakana_block(s[j])
            && in_katakana_block(s[k])
}

/// There is more than one run of katakana just where something else stands
/// between katakana.
pub proof fn law_runs_of_katakana(s: Seq<char>)
    ensures
        kana::multiple_katakana_runs(s) <==> broken_katakana(s),
{
    if kana::multiple_katakana_runs(s) {
        let (a, b) = choose|a: int, b: int|
            a < b && #[trigger] kana::katakana_run_starts(s, a)
                && #[trigger] kana::katakana_run_starts(s, b);
        assert(in_katakana_block(s[a]) && !in_katakana_block(s[b - 1]) && in_katakana_block(s[b]));
        assert(a < b - 1);
    }
    if broken_katakana(s) {
        let (i, j, k) = choose|i: int, j: int, k: int|
            #![trigger s[i], s[j], s[k]]
            0 <= i < j < k < s.len() && in_katakana_block(s[i]) && !in_katakana_block(s[j])
                && in_katakana_block(s[k]);
        let second = lemma_run_begins(s, j, k);
        let first = lemma_first_run(s, i);
        assert(kana::katakana_run_starts(s, first) && kana::katakana_run_starts(s, second));
    }
}

proof fn lemma_first_run(s: Seq<char>, at: int) -> (i: int)
    requires
        0 <= at < s.len(),
        in_katakana_block(s[at]),
    ensures
        0 <= i <= at,
        kana::katakana_run_starts(s, i),
    decreases at,
{
    if at == 0 || !in_katakana_block(s[at - 1]) {
        at
    } else {
        lemma_first_run(s, at - 1)
    }
}

/// What a reading must not become unasked: nothing at all; and, where it is
/// all kana, a text with a Latin letter, or one with kanji and broken katakana
/// that makes up a third of it or more. Anything else may be shown.
pub proof fn law_what_is_not_shown_unasked(reading: Seq<char>, converted: Seq<char>)
    ensures
        ({
            let all_kana = forall|i: int|
                0 <= i < reading.len() ==> in_hiragana_block(#[trigger] reading[i])
                    || in_katakana_block(reading[i]);
            let latin = exists|i: int|
                0 <= i < converted.len() && (0x41 <= (#[trigger] converted[i]) as int <= 0x5a
                    || 0x61 <= converted[i] as int <= 0x7a);
            let kanji = exists|i: int|
                0 <= i < converted.len() && 0x3400 <= (#[trigger] converted[i]) as int <= 0x9fff;
            let many = 3 * katakana_among(converted, converted.len() as int) >= converted.len();
            kana::suspicious(reading, converted) <==> converted.len() == 0 || all_kana && (latin
                || kanji && broken_katakana(converted) && many)
        }),
{
    let is_kana = |c: char| kana::kana(c);
    let is_letter = |c: char| kana::ascii_letter(c);
    let is_kanji = |c: char| kana::kanji(c);
    law_runs_of_katakana(converted);
    lemma_katakana_among(converted, converted.len() as int);
    assert(converted.take(converted.len() as int) =~= converted);
    assert(kana::all_chars(reading, is_kana) <==> (forall|i: int|
        0 <= i < reading.len() ==> in_hiragana_block(#[trigger] reading[i]) || in_katakana_block(
            reading[i],
        ))) by {
        if kana::all_chars(reading, is_kana) {
            assert forall|i: int| 0 <= i < reading.len() implies in_hiragana_block(
                #[trigger] reading[i],
            ) || in_katakana_block(reading[i]) by {
                assert(is_kana(reading[i]));
            }
        }
    }
    assert(kana::any_char(converted, is_letter) <==> (exists|i: int|
        0 <= i < converted.len() && (0x41 <= (#[trigger] converted[i]) as int <= 0x5a || 0x61
            <= converted[i] as int <= 0x7a))) by {
        if kana::any_char(converted, is_letter) {
            let i = choose|i: int| 0 <= i < converted.len() && is_letter(#[trigger] converted[i]);
            assert(0x41 <= converted[i] as int <= 0x5a || 0x61 <= converted[i] as int <= 0x7a);
        }
        if exists|i: int|
            0 <= i < converted.len() && (0x41 <= (#[trigger] converted[i]) as int <= 0x5a || 0x61
                <= converted[i] as int <= 0x7a) {
            let i = choose|i: int|
                0 <= i < converted.len() && (0x41 <= (#[trigger] converted[i]) as int <= 0x5a
                    || 0x61 <= converted[i] as int <= 0x7a);
            assert(is_letter(converted[i]));
        }
    }
    assert(kana::any_char(converted, is_kanji) <==> (exists|i: int|
        0 <= i < converted.len() && 0x3400 <= (#[trigger] converted[i]) as int <= 0x9fff)) by {
        if kana::any_char(converted, is_kanji) {
            let i = choose|i: int| 0 <= i < converted.len() && is_kanji(#[trigger] converted[i]);
            assert(0x3400 <= converted[i] as int <= 0x9fff);
        }
        if exists|i: int|
            0 <= i < converted.len() && 0x3400 <= (#[trigger] converted[i]) as int <= 0x9fff {
            let i = choose|i: int|
                0 <= i < converted.len() && 0x3400 <= (#[trigger] converted[i]) as int <= 0x9fff;
            assert(is_kanji(converted[i]));
        }
    }
}

} // verus!
