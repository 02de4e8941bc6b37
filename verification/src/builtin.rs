//! Loading the built-in part of the dictionary.
//!
//! The words come from a generated list. Some of their frequencies are
//! corrected on the way in, and the supplementary lists and the emoji follow.
use vstd::prelude::*;

use crate::dictionary::Dictionary;
use crate::entry;
use crate::entry::{DictionaryEntry, EntryView};
use crate::nano::NanoTable;
use crate::pos::PartOfSpeech;
use crate::scan;
use crate::scan::{copied, copied_between, fields, find, lines, parse_unsigned, trim};
use crate::tables;
use crate::text::{begins_with, chars_of, text_between, text_of};
use crate::textmap::TextMap;

verus! {

/// Frequency of the first symbol or emoji of a reading.
pub const SYMBOL_BASE_FREQ: u32 = 500;

/// How far below the best kanji spelling a katakana spelling is kept.
pub const KATAKANA_GAP: u32 = 200;

/// The cap on katakana spellings does not fall below this frequency.
pub const KATAKANA_FLOOR: u32 = 500;

/// Is `c` a kanji?
pub open spec fn is_kanji(c: char) -> bool {
    '\u{4e00}' <= c <= '\u{9fff}' || '\u{3400}' <= c <= '\u{4dbf}'
}

/// Is `c` a katakana letter?
pub open spec fn is_katakana(c: char) -> bool {
    '\u{30a1}' <= c <= '\u{30f6}'
}

/// Does the text hold a kanji?
pub open spec fn holds_kanji(s: Seq<char>) -> bool {
    exists|i: int| 0 <= i < s.len() && is_kanji(#[trigger] s[i])
}

/// Does the text hold a katakana letter and no kanji?
pub open spec fn kata_dominant(s: Seq<char>) -> bool {
    !holds_kanji(s) && exists|i: int| 0 <= i < s.len() && is_katakana(#[trigger] s[i])
}

/// `base` lowered by `by`, but not below zero.
pub open spec fn lowered(base: int, by: int) -> u32 {
    if by >= base {
        0
    } else {
        (base - by) as u32
    }
}

/// The surfaces of one reading as entries: the first with frequency `base`,
/// each further one lower by `step`.
pub open spec fn graded(
    reading: Seq<char>,
    surfaces: Seq<Seq<char>>,
    p: PartOfSpeech,
    base: int,
    step: int,
) -> Seq<EntryView> {
    Seq::new(
        surfaces.len(),
        |i: int|
            EntryView { reading, surface: surfaces[i], pos: p, frequency: lowered(base, i * step) },
    )
}

/// The lines of a list, each as its words.
pub open spec fn rows_of(text: Seq<char>) -> Seq<Seq<Seq<char>>> {
    scan::lines_of(text).map_values(|l: Seq<char>| scan::fields_of(l))
}

/// The entries of a line: a reading and its surfaces.
pub open spec fn graded_row(row: Seq<Seq<char>>, p: PartOfSpeech, base: int, step: int) -> Seq<
    EntryView,
> {
    if row.len() == 0 {
        Seq::empty()
    } else {
        graded(row[0], row.skip(1), p, base, step)
    }
}

/// The entries of the lines, in order.
pub open spec fn graded_rows(
    rows: Seq<Seq<Seq<char>>>,
    p: PartOfSpeech,
    base: int,
    step: int,
) -> Seq<EntryView>
    decreases rows.len(),
{
    if rows.len() == 0 {
        Seq::empty()
    } else {
        graded_rows(rows.drop_last(), p, base, step) + graded_row(rows.last(), p, base, step)
    }
}

/// The frequency that a weighted line starts with.
pub open spec fn row_weight(row: Seq<Seq<char>>) -> Option<int> {
    if row.len() == 0 {
        None
    } else {
        scan::unsigned_of(row[0], 10, u32::MAX as int)
    }
}

/// The entries of a weighted line: a frequency, a reading and its surfaces. A
/// line that does not start with a number gives none.
pub open spec fn weighted_row(row: Seq<Seq<char>>, p: PartOfSpeech) -> Seq<EntryView> {
    match row_weight(row) {
        Some(f) => graded_row(row.skip(1), p, f, 0),
        None => Seq::empty(),
    }
}

/// The entries of the weighted lines, in order.
pub open spec fn weighted_rows(rows: Seq<Seq<Seq<char>>>, p: PartOfSpeech) -> Seq<EntryView>
    decreases rows.len(),
{
    if rows.len() == 0 {
        Seq::empty()
    } else {
        weighted_rows(rows.drop_last(), p) + weighted_row(rows.last(), p)
    }
}

/// The text without its last character.
pub open spec fn stem(s: Seq<char>) -> Seq<char> {
    if s.len() == 0 {
        s
    } else {
        s.drop_last()
    }
}

/// The forms of a verb with one tail: reading and surfaces lose their last
/// character and take the tail instead.
pub open spec fn with_tail(
    reading: Seq<char>,
    surfaces: Seq<Seq<char>>,
    tail: Seq<char>,
    base: int,
) -> Seq<EntryView> {
    graded(
        stem(reading) + tail,
        surfaces.map_values(|s: Seq<char>| stem(s) + tail),
        PartOfSpeech::Verb,
        base,
        50,
    )
}

/// The forms of a verb with each of the tails, in order.
pub open spec fn with_tails(
    reading: Seq<char>,
    surfaces: Seq<Seq<char>>,
    tails: Seq<Seq<char>>,
    base: int,
) -> Seq<EntryView>
    decreases tails.len(),
{
    if tails.len() == 0 {
        Seq::empty()
    } else {
        with_tails(reading, surfaces, tails.drop_last(), base) + with_tail(
            reading,
            surfaces,
            tails.last(),
            base,
        )
    }
}

/// The forms of the verb in a weighted line.
pub open spec fn verb_row(row: Seq<Seq<char>>, tails: Seq<Seq<char>>) -> Seq<EntryView> {
    match row_weight(row) {
        Some(f) => if row.len() < 2 {
            Seq::empty()
        } else {
            with_tails(row[1], row.skip(2), tails, f)
        },
        None => Seq::empty(),
    }
}

/// The forms of the verbs in weighted lines, in order.
pub open spec fn verb_rows(rows: Seq<Seq<Seq<char>>>, tails: Seq<Seq<char>>) -> Seq<EntryView>
    decreases rows.len(),
{
    if rows.len() == 0 {
        Seq::empty()
    } else {
        verb_rows(rows.drop_last(), tails) + verb_row(rows.last(), tails)
    }
}

/// The entries of the supplementary lists.
pub open spec fn supplement() -> Seq<EntryView> {
    graded_rows(rows_of(tables::SYMBOLS@), PartOfSpeech::Other, 500, 10) + graded_rows(
        rows_of(tables::AUXILIARIES@),
        PartOfSpeech::Auxiliary,
        9000,
        0,
    ) + graded_rows(rows_of(tables::SAHEN_COMPOUNDS@), PartOfSpeech::Verb, 9000, 100)
        + graded_rows(rows_of(tables::FORMULAIC@), PartOfSpeech::Auxiliary, 9000, 0)
        + graded_rows(rows_of(tables::SARERU_AUXILIARIES@), PartOfSpeech::Auxiliary, 8500, 0)
        + verb_rows(rows_of(tables::GODAN_SU_VERBS@), scan::fields_of(tables::SU_TAILS@))
        + graded_rows(rows_of(tables::COMPOUND_PARTICLES@), PartOfSpeech::Particle, 9200, 0)
        + graded_rows(rows_of(tables::COMPOUND_NOUNS@), PartOfSpeech::Noun, 8000, 0)
        + weighted_rows(rows_of(tables::KATAKANA_TERMS@), PartOfSpeech::Noun) + weighted_rows(
        rows_of(tables::GENERAL_SUPPLEMENT@),
        PartOfSpeech::Noun,
    ) + graded_rows(rows_of(tables::BOX_DRAWING@), PartOfSpeech::Noun, 8000, 0)
}

/// The entries of a line of the emoji list: a reading, a tab and emoji between
/// blanks. Empty lines, comments and lines without a tab give none.
pub open spec fn emoji_row(line: Seq<char>) -> Seq<EntryView> {
    let t = scan::trimmed(line);
    let at = scan::index_of(t, '\t');
    if t.len() == 0 || t[0] == '#' || at >= t.len() {
        Seq::empty()
    } else {
        graded(t.take(at), scan::fields_of(t.skip(at + 1)), PartOfSpeech::Other, 500, 10)
    }
}

/// The entries of the lines of an emoji list, in order.
pub open spec fn emoji_rows(rows: Seq<Seq<char>>) -> Seq<EntryView>
    decreases rows.len(),
{
    if rows.len() == 0 {
        Seq::empty()
    } else {
        emoji_rows(rows.drop_last()) + emoji_row(rows.last())
    }
}

/// The frequency that the corrections give to a word; the last one counts.
pub open spec fn preferred(prefs: Seq<EntryView>, reading: Seq<char>, surface: Seq<char>) -> Option<
    u32,
>
    decreases prefs.len(),
{
    if prefs.len() == 0 {
        None
    } else if prefs.last().reading == reading && prefs.last().surface == surface {
        Some(prefs.last().frequency)
    } else {
        preferred(prefs.drop_last(), reading, surface)
    }
}

/// Is `c` a kana that ends the dictionary form of a verb?
pub open spec fn ends_verb(c: char) -> bool {
    c == 'る' || c == 'む' || c == 'ぶ' || c == 'く' || c == 'ぐ' || c == 'す' || c == 'つ' || c
        == 'う' || c == 'ぬ'
}

/// The stems that the inflected forms of a verb start with, and the frequency
/// they are raised to.
#[verifier::ext_equal]
pub struct FamilyView {
    pub reading: Seq<char>,
    pub surface: Seq<char>,
    pub frequency: u32,
}

/// Is the word the dictionary form of a verb? Reading and surface end in the same
/// kana, one that verbs end in. A noun whose reading happens to end so is written
/// without that kana.
pub open spec fn is_verb_form(reading: Seq<char>, surface: Seq<char>) -> bool {
    reading.len() > 0 && surface.len() > 0 && ends_verb(reading.last()) && surface.last()
        == reading.last()
}

/// The family of inflected forms that a correction stands for: that of a verb
/// with a kanji, whose reading has at least three characters.
pub open spec fn family_of(e: EntryView) -> Option<FamilyView> {
    if e.reading.len() < 3 || !is_verb_form(e.reading, e.surface) || !holds_kanji(e.surface) {
        None
    } else {
        Some(
            FamilyView {
                reading: e.reading.drop_last(),
                surface: e.surface.drop_last(),
                frequency: e.frequency,
            },
        )
    }
}

/// The families that the corrections stand for, in order.
pub open spec fn families_of(prefs: Seq<EntryView>) -> Seq<FamilyView> {
    prefs.filter_map(|e: EntryView| family_of(e))
}

/// Does the word belong to the family?
pub open spec fn in_family(f: FamilyView, reading: Seq<char>, surface: Seq<char>) -> bool {
    f.reading.is_prefix_of(reading) && f.surface.is_prefix_of(surface)
}

/// The frequency of the first family that the word belongs to.
pub open spec fn family_boost(
    families: Seq<FamilyView>,
    reading: Seq<char>,
    surface: Seq<char>,
) -> Option<u32>
    decreases families.len(),
{
    if families.len() == 0 {
        None
    } else {
        match family_boost(families.drop_last(), reading, surface) {
            Some(f) => Some(f),
            None => if in_family(families.last(), reading, surface) {
                Some(families.last().frequency)
            } else {
                None
            },
        }
    }
}

/// The highest frequency among the words with this reading and part of speech
/// that are written with a kanji.
pub open spec fn kanji_top(words: Seq<EntryView>, reading: Seq<char>, p: PartOfSpeech) -> Option<
    u32,
>
    decreases words.len(),
{
    if words.len() == 0 {
        None
    } else {
        let rest = kanji_top(words.drop_last(), reading, p);
        let e = words.last();
        if e.reading == reading && e.pos == p && holds_kanji(e.surface) {
            match rest {
                Some(f) => if f >= e.frequency {
                    rest
                } else {
                    Some(e.frequency)
                },
                None => Some(e.frequency),
            }
        } else {
            rest
        }
    }
}

/// Verbs, adjectives and nouns can be capped.
pub open spec fn can_be_capped(p: PartOfSpeech) -> bool {
    p == PartOfSpeech::Verb || p == PartOfSpeech::Adjective || p == PartOfSpeech::Noun
}

/// The cap on katakana spellings beside a kanji spelling of frequency `top`.
pub open spec fn katakana_cap(top: u32) -> u32 {
    if top < 700 {
        500
    } else {
        (top - 200) as u32
    }
}

/// The frequency of a word after the corrections: its own override, then the
/// lift of its verb family, then the cap on katakana spellings.
pub open spec fn corrected_frequency(
    words: Seq<EntryView>,
    prefs: Seq<EntryView>,
    e: EntryView,
) -> u32 {
    let own = match preferred(prefs, e.reading, e.surface) {
        Some(f) => f,
        None => e.frequency,
    };
    let lifted = if e.pos == PartOfSpeech::Verb || e.pos == PartOfSpeech::Adjective {
        match family_boost(families_of(prefs), e.reading, e.surface) {
            Some(b) => if own < b {
                b
            } else {
                own
            },
            None => own,
        }
    } else {
        own
    };
    if can_be_capped(e.pos) && kata_dominant(e.surface) {
        match kanji_top(words, e.reading, e.pos) {
            Some(top) => if lifted > katakana_cap(top) {
                katakana_cap(top)
            } else {
                lifted
            },
            None => lifted,
        }
    } else {
        lifted
    }
}

/// The word with its corrected frequency.
pub open spec fn corrected(words: Seq<EntryView>, prefs: Seq<EntryView>, e: EntryView) -> EntryView {
    EntryView { frequency: corrected_frequency(words, prefs, e), ..e }
}

/// The corrections.
pub open spec fn preferences() -> Seq<EntryView> {
    weighted_rows(rows_of(tables::PRIORITY_OVERRIDES@), PartOfSpeech::Other)
}

/// The built-in entries: the words with their corrected frequencies, the
/// supplementary lists and the emoji.
pub open spec fn builtin_entries(words: Seq<EntryView>, emoji: Seq<char>) -> Seq<EntryView> {
    words.map_values(|e: EntryView| corrected(words, preferences(), e)) + supplement()
        + emoji_rows(scan::lines_of(emoji))
}

/// Does the text hold a kanji?
pub fn surface_contains_kanji(surface: &str) -> (yes: bool)
    ensures
        yes == holds_kanji(surface@),
{
    let chars: Vec<char> = chars_of(surface);
    let mut i: usize = 0;
    while i < chars.len()
        invariant
            i <= chars@.len(),
            chars@ == surface@,
            forall|k: int| 0 <= k < i ==> !is_kanji(#[trigger] surface@[k]),
        decreases chars@.len() - i,
    {
        let c: char = chars[i];
        if ('\u{4e00}' <= c && c <= '\u{9fff}') || ('\u{3400}' <= c && c <= '\u{4dbf}') {
            assert(is_kanji(surface@[i as int]));
            return true;
        }
        i = i + 1;
    }
    false
}

/// Does the text hold a katakana letter and no kanji?
pub fn is_kata_dominant(surface: &str) -> (yes: bool)
    ensures
        yes == kata_dominant(surface@),
{
    if surface_contains_kanji(surface) {
        return false;
    }
    let chars: Vec<char> = chars_of(surface);
    let mut i: usize = 0;
    while i < chars.len()
        invariant
            i <= chars@.len(),
            chars@ == surface@,
            !holds_kanji(surface@),
            forall|k: int| 0 <= k < i ==> !is_katakana(#[trigger] surface@[k]),
        decreases chars@.len() - i,
    {
        let c: char = chars[i];
        if '\u{30a1}' <= c && c <= '\u{30f6}' {
            assert(is_katakana(surface@[i as int]));
            return true;
        }
        i = i + 1;
    }
    false
}

/// Appends the entries of one reading, each surface lower by `step` than the
/// one before.
fn push_graded(
    out: &mut Vec<DictionaryEntry>,
    reading: &Vec<char>,
    surfaces: &Vec<Vec<char>>,
    from: usize,
    p: PartOfSpeech,
    base: u32,
    step: u32,
)
    requires
        from <= surfaces@.len(),
    ensures
        entry::entry_views(final(out)@) == entry::entry_views(old(out)@) + graded(
            reading@,
            scan::text_views(surfaces@).skip(from as int),
            p,
            base as int,
            step as int,
        ),
{
    let ghost start = entry::entry_views(out@);
    let ghost texts = scan::text_views(surfaces@).skip(from as int);
    let ghost all = graded(reading@, texts, p, base as int, step as int);
    let mut i: usize = from;
    assert(start + all.take(0) =~= start);
    while i < surfaces.len()
        invariant
            from <= i <= surfaces@.len(),
            texts == scan::text_views(surfaces@).skip(from as int),
            all == graded(reading@, texts, p, base as int, step as int),
            entry::entry_views(out@) == start + all.take(i - from),
        decreases surfaces@.len() - i,
    {
        let ghost k = i - from;
        let ghost before = out@;
        proof {
            assert(0 <= k * step <= 0xffff_ffff_ffff_ffff * 0xffff_ffff) by (nonlinear_arith)
                requires
                    0 <= k <= 0xffff_ffff_ffff_ffff,
                    0 <= step <= 0xffff_ffff,
            ;
        }
        let by: u128 = ((i - from) as u128) * (step as u128);
        let frequency: u32 = if by >= base as u128 {
            0
        } else {
            base - (by as u32)
        };
        out.push(
            DictionaryEntry {
                reading: text_of(reading.as_slice()),
                surface: text_of(surfaces[i].as_slice()),
                pos: p,
                frequency,
            },
        );
        i = i + 1;
        proof {
            assert(texts[k] == surfaces@[i - 1]@);
            assert(entry::entry_views(out@) =~= entry::entry_views(before).push(all[k]));
            assert(entry::entry_views(out@) =~= start + all.take(k + 1));
        }
    }
    assert(all.take(i - from) =~= all);
}

/// The contents of a list of lines.
pub open spec fn row_views(rows: Seq<Vec<Vec<char>>>) -> Seq<Seq<Seq<char>>> {
    rows.map_values(|r: Vec<Vec<char>>| scan::text_views(r@))
}

/// The lines of a list, each as its words.
fn rows(text: &str) -> (out: Vec<Vec<Vec<char>>>)
    ensures
        row_views(out@) == rows_of(text@),
{
    let chars: Vec<char> = chars_of(text);
    let all: Vec<Vec<char>> = lines(chars.as_slice());
    let ghost av = scan::text_views(all@);
    let ghost want = rows_of(text@);
    let mut out: Vec<Vec<Vec<char>>> = Vec::new();
    let mut i: usize = 0;
    while i < all.len()
        invariant
            i <= all@.len(),
            av == scan::text_views(all@),
            av == scan::lines_of(text@),
            want == rows_of(text@),
            out@.len() == i,
            forall|k: int| 0 <= k < i ==> scan::text_views((#[trigger] out@[k])@) == want[k],
        decreases all@.len() - i,
    {
        assert(want[i as int] == scan::fields_of(all@[i as int]@));
        let row: Vec<Vec<char>> = fields(all[i].as_slice());
        out.push(row);
        i = i + 1;
    }
    assert(row_views(out@) =~= want);
    out
}

/// Appends the entries of a list whose surfaces are graded.
fn push_graded_table(
    out: &mut Vec<DictionaryEntry>,
    text: &str,
    p: PartOfSpeech,
    base: u32,
    step: u32,
)
    ensures
        entry::entry_views(final(out)@) == entry::entry_views(old(out)@) + graded_rows(
            rows_of(text@),
            p,
            base as int,
            step as int,
        ),
{
    let list: Vec<Vec<Vec<char>>> = rows(text);
    let ghost lv = rows_of(text@);
    let ghost start = entry::entry_views(out@);
    let mut i: usize = 0;
    assert(start + graded_rows(lv.take(0), p, base as int, step as int) =~= start);
    while i < list.len()
        invariant
            i <= list@.len(),
            lv == row_views(list@),
            entry::entry_views(out@) == start + graded_rows(
                lv.take(i as int),
                p,
                base as int,
                step as int,
            ),
        decreases list@.len() - i,
    {
        let ghost before = entry::entry_views(out@);
        let ghost row = lv[i as int];
        proof {
            assert(row == scan::text_views(list@[i as int]@));
            assert(row.len() == list@[i as int]@.len());
            assert(lv.take(i + 1).drop_last() =~= lv.take(i as int));
            assert(lv.take(i + 1).last() == row);
        }
        if list[i].len() > 0 {
            assert(row[0] == list@[i as int]@[0]@);
            push_graded(out, &list[i][0], &list[i], 1, p, base, step);
        }
        proof {
            assert(entry::entry_views(out@) =~= before + graded_row(
                row,
                p,
                base as int,
                step as int,
            ));
            assert(entry::entry_views(out@) =~= start + graded_rows(
                lv.take(i + 1),
                p,
                base as int,
                step as int,
            ));
        }
        i = i + 1;
    }
    assert(lv.take(i as int) =~= lv);
}

/// The frequency that a weighted line starts with.
fn weight(row: &Vec<Vec<char>>) -> (f: Option<u32>)
    ensures
        match f {
            Some(v) => row_weight(scan::text_views(row@)) == Some(v as int),
            None => row_weight(scan::text_views(row@)) is None,
        },
{
    if row.len() == 0 {
        return None;
    }
    assert(scan::text_views(row@)[0] == row@[0]@);
    match parse_unsigned(row[0].as_slice(), 10, u32::MAX as u64) {
        Some(v) => Some(v as u32),
        None => None,
    }
}

/// Appends the entries of a weighted list.
fn push_weighted_table(out: &mut Vec<DictionaryEntry>, text: &str, p: PartOfSpeech)
    ensures
        entry::entry_views(final(out)@) == entry::entry_views(old(out)@) + weighted_rows(
            rows_of(text@),
            p,
        ),
{
    let list: Vec<Vec<Vec<char>>> = rows(text);
    let ghost lv = rows_of(text@);
    let ghost start = entry::entry_views(out@);
    let mut i: usize = 0;
    assert(start + weighted_rows(lv.take(0), p) =~= start);
    while i < list.len()
        invariant
            i <= list@.len(),
            lv == row_views(list@),
            entry::entry_views(out@) == start + weighted_rows(lv.take(i as int), p),
        decreases list@.len() - i,
    {
        let ghost before = entry::entry_views(out@);
        let ghost row = lv[i as int];
        proof {
            assert(row == scan::text_views(list@[i as int]@));
            assert(row.len() == list@[i as int]@.len());
            assert(lv.take(i + 1).drop_last() =~= lv.take(i as int));
            assert(lv.take(i + 1).last() == row);
        }
        match weight(&list[i]) {
            Some(f) => {
                if list[i].len() > 1 {
                    proof {
                        assert(row[1] == list@[i as int]@[1]@);
                        assert(row.skip(1).skip(1) =~= row.skip(2));
                    }
                    push_graded(out, &list[i][1], &list[i], 2, p, f, 0);
                }
            },
            None => {},
        }
        proof {
            assert(entry::entry_views(out@) =~= before + weighted_row(row, p));
            assert(entry::entry_views(out@) =~= start + weighted_rows(lv.take(i + 1), p));
        }
        i = i + 1;
    }
    assert(lv.take(i as int) =~= lv);
}

/// The text without its last character, followed by `tail`.
fn retailed(chars: &Vec<char>, tail: &Vec<char>) -> (out: Vec<char>)
    ensures
        out@ == stem(chars@) + tail@,
{
    let n: usize = if chars.len() == 0 {
        0
    } else {
        chars.len() - 1
    };
    let mut out: Vec<char> = copied_between(chars.as_slice(), 0, n);
    assert(out@ =~= stem(chars@));
    let mut more: Vec<char> = copied(tail);
    out.append(&mut more);
    out
}

/// Appends the forms of one verb.
fn push_verb(
    out: &mut Vec<DictionaryEntry>,
    row: &Vec<Vec<char>>,
    tails: &Vec<Vec<char>>,
    base: u32,
)
    requires
        row@.len() >= 2,
    ensures
        entry::entry_views(final(out)@) == entry::entry_views(old(out)@) + with_tails(
            row@[1]@,
            scan::text_views(row@).skip(2),
            scan::text_views(tails@),
            base as int,
        ),
{
    let ghost start = entry::entry_views(out@);
    let ghost reading = row@[1]@;
    let ghost surfaces = scan::text_views(row@).skip(2);
    let ghost tv = scan::text_views(tails@);
    let mut t: usize = 0;
    assert(start + with_tails(reading, surfaces, tv.take(0), base as int) =~= start);
    while t < tails.len()
        invariant
            t <= tails@.len(),
            row@.len() >= 2,
            reading == row@[1]@,
            surfaces == scan::text_views(row@).skip(2),
            tv == scan::text_views(tails@),
            entry::entry_views(out@) == start + with_tails(
                reading,
                surfaces,
                tv.take(t as int),
                base as int,
            ),
        decreases tails@.len() - t,
    {
        let ghost tail = tv[t as int];
        assert(tail == tails@[t as int]@);
        let new_reading: Vec<char> = retailed(&row[1], &tails[t]);
        let mut forms: Vec<Vec<char>> = Vec::new();
        let mut k: usize = 2;
        while k < row.len()
            invariant
                2 <= k <= row@.len(),
                t < tails@.len(),
                tail == tails@[t as int]@,
                forms@.len() == k - 2,
                forall|m: int|
                    0 <= m < k - 2 ==> (#[trigger] forms@[m])@ == stem(row@[m + 2]@) + tail,
            decreases row@.len() - k,
        {
            let form: Vec<char> = retailed(&row[k], &tails[t]);
            forms.push(form);
            k = k + 1;
        }
        proof {
            assert(scan::text_views(forms@).skip(0) =~= surfaces.map_values(
                |s: Seq<char>| stem(s) + tail,
            ));
        }
        push_graded(out, &new_reading, &forms, 0, PartOfSpeech::Verb, base, 50);
        proof {
            assert(tv.take(t + 1).drop_last() =~= tv.take(t as int));
            assert(tv.take(t + 1).last() == tail);
            assert(entry::entry_views(out@) =~= start + with_tails(
                reading,
                surfaces,
                tv.take(t + 1),
                base as int,
            ));
        }
        t = t + 1;
    }
    assert(tv.take(t as int) =~= tv);
}

/// Appends the forms of the verbs in a weighted list.
fn push_verb_table(out: &mut Vec<DictionaryEntry>, text: &str, tail_text: &str)
    ensures
        entry::entry_views(final(out)@) == entry::entry_views(old(out)@) + verb_rows(
            rows_of(text@),
            scan::fields_of(tail_text@),
        ),
{
    let list: Vec<Vec<Vec<char>>> = rows(text);
    let tail_chars: Vec<char> = chars_of(tail_text);
    let tails: Vec<Vec<char>> = fields(tail_chars.as_slice());
    let ghost tv = scan::fields_of(tail_text@);
    let ghost lv = rows_of(text@);
    let ghost start = entry::entry_views(out@);
    let mut i: usize = 0;
    assert(start + verb_rows(lv.take(0), tv) =~= start);
    while i < list.len()
        invariant
            i <= list@.len(),
            lv == row_views(list@),
            tv == scan::text_views(tails@),
            entry::entry_views(out@) == start + verb_rows(lv.take(i as int), tv),
        decreases list@.len() - i,
    {
        let ghost before = entry::entry_views(out@);
        let ghost row = lv[i as int];
        proof {
            assert(row == scan::text_views(list@[i as int]@));
            assert(row.len() == list@[i as int]@.len());
            assert(lv.take(i + 1).drop_last() =~= lv.take(i as int));
            assert(lv.take(i + 1).last() == row);
        }
        match weight(&list[i]) {
            Some(f) => {
                if list[i].len() >= 2 {
                    assert(row[1] == list@[i as int]@[1]@);
                    push_verb(out, &list[i], &tails, f);
                }
            },
            None => {},
        }
        proof {
            assert(entry::entry_views(out@) =~= before + verb_row(row, tv));
            assert(entry::entry_views(out@) =~= start + verb_rows(lv.take(i + 1), tv));
        }
        i = i + 1;
    }
    assert(lv.take(i as int) =~= lv);
}

/// Appends the entries of the supplementary lists.
pub fn load_symbol_entries(out: &mut Vec<DictionaryEntry>)
    ensures
        entry::entry_views(final(out)@) == entry::entry_views(old(out)@) + supplement(),
{
    let ghost start = entry::entry_views(out@);
    push_graded_table(out, tables::SYMBOLS, PartOfSpeech::Other, SYMBOL_BASE_FREQ, 10);
    push_graded_table(out, tables::AUXILIARIES, PartOfSpeech::Auxiliary, 9000, 0);
    push_graded_table(out, tables::SAHEN_COMPOUNDS, PartOfSpeech::Verb, 9000, 100);
    push_graded_table(out, tables::FORMULAIC, PartOfSpeech::Auxiliary, 9000, 0);
    push_graded_table(out, tables::SARERU_AUXILIARIES, PartOfSpeech::Auxiliary, 8500, 0);
    push_verb_table(out, tables::GODAN_SU_VERBS, tables::SU_TAILS);
    push_graded_table(out, tables::COMPOUND_PARTICLES, PartOfSpeech::Particle, 9200, 0);
    push_graded_table(out, tables::COMPOUND_NOUNS, PartOfSpeech::Noun, 8000, 0);
    push_weighted_table(out, tables::KATAKANA_TERMS, PartOfSpeech::Noun);
    push_weighted_table(out, tables::GENERAL_SUPPLEMENT, PartOfSpeech::Noun);
    push_graded_table(out, tables::BOX_DRAWING, PartOfSpeech::Noun, 8000, 0);
    assert(entry::entry_views(out@) =~= start + supplement());
}

/// Appends the entries of an emoji list.
pub fn load_emoji_entries(out: &mut Vec<DictionaryEntry>, emoji_tsv: &str)
    ensures
        entry::entry_views(final(out)@) == entry::entry_views(old(out)@) + emoji_rows(
            scan::lines_of(emoji_tsv@),
        ),
{
    let chars: Vec<char> = chars_of(emoji_tsv);
    let list: Vec<Vec<char>> = lines(chars.as_slice());
    let ghost lv = scan::lines_of(emoji_tsv@);
    let ghost start = entry::entry_views(out@);
    let mut i: usize = 0;
    assert(start + emoji_rows(lv.take(0)) =~= start);
    while i < list.len()
        invariant
            i <= list@.len(),
            lv == scan::text_views(list@),
            entry::entry_views(out@) == start + emoji_rows(lv.take(i as int)),
        decreases list@.len() - i,
    {
        let ghost before = entry::entry_views(out@);
        let ghost line = lv[i as int];
        proof {
            assert(line == list@[i as int]@);
            assert(lv.take(i + 1).drop_last() =~= lv.take(i as int));
            assert(lv.take(i + 1).last() == line);
        }
        let t: Vec<char> = trim(list[i].as_slice());
        if t.len() > 0 && t[0] != '#' {
            let at: usize = find(t.as_slice(), '\t');
            if at < t.len() {
                let reading: Vec<char> = copied_between(t.as_slice(), 0, at);
                let rest: Vec<char> = copied_between(t.as_slice(), at + 1, t.len());
                proof {
                    assert(reading@ =~= t@.take(at as int));
                    assert(rest@ =~= t@.skip(at + 1));
                }
                let emojis: Vec<Vec<char>> = fields(rest.as_slice());
                assert(scan::text_views(emojis@).skip(0) =~= scan::fields_of(rest@));
                push_graded(out, &reading, &emojis, 0, PartOfSpeech::Other, SYMBOL_BASE_FREQ, 10);
            }
        }
        proof {
            assert(entry::entry_views(out@) =~= before + emoji_row(line));
            assert(entry::entry_views(out@) =~= start + emoji_rows(lv.take(i + 1)));
        }
        i = i + 1;
    }
    assert(lv.take(i as int) =~= lv);
}

/// The stems that the inflected forms of a verb start with, and the frequency
/// they are raised to.
pub struct VerbFamily {
    pub reading: Vec<char>,
    pub surface: Vec<char>,
    pub frequency: u32,
}

impl View for VerbFamily {
    type V = FamilyView;

    open spec fn view(&self) -> FamilyView {
        FamilyView {
            reading: self.reading@,
            surface: self.surface@,
            frequency: self.frequency,
        }
    }
}

/// The contents of a list of families.
pub open spec fn family_views(v: Seq<VerbFamily>) -> Seq<FamilyView> {
    v.map_values(|f: VerbFamily| f@)
}

/// The families of inflected forms that the corrections stand for.
pub fn collect_verb_stems(prefs: &Vec<DictionaryEntry>) -> (out: Vec<VerbFamily>)
    ensures
        family_views(out@) == families_of(entry::entry_views(prefs@)),
{
    let ghost all = entry::entry_views(prefs@);
    let ghost pick = |e: EntryView| family_of(e);
    let mut out: Vec<VerbFamily> = Vec::new();
    let mut i: usize = 0;
    assert(all.take(0).filter_map(pick) =~= Seq::empty());
    assert(family_views(out@) =~= Seq::empty());
    while i < prefs.len()
        invariant
            i <= prefs@.len(),
            all == entry::entry_views(prefs@),
            pick == (|e: EntryView| family_of(e)),
            family_views(out@) == all.take(i as int).filter_map(pick),
        decreases prefs@.len() - i,
    {
        let ghost before = out@;
        let ghost e = all[i as int];
        proof {
            assert(e == prefs@[i as int]@);
            all.lemma_filter_map_take_succ(pick, i as int);
        }
        let reading: Vec<char> = chars_of(prefs[i].reading.as_str());
        let surface: Vec<char> = chars_of(prefs[i].surface.as_str());
        let n: usize = reading.len();
        if n >= 3 && surface_contains_kanji(prefs[i].surface.as_str()) {
            let last: char = reading[n - 1];
            let m: usize = surface.len();
            if m > 0 && surface[m - 1] == last && (last == 'る' || last == 'む' || last == 'ぶ'
                || last == 'く' || last == 'ぐ' || last == 'す' || last == 'つ' || last == 'う'
                || last == 'ぬ') {
                let family: VerbFamily = VerbFamily {
                    reading: copied_between(reading.as_slice(), 0, n - 1),
                    surface: copied_between(surface.as_slice(), 0, m - 1),
                    frequency: prefs[i].frequency,
                };
                proof {
                    assert(family@.reading =~= e.reading.drop_last());
                    assert(family@.surface =~= e.surface.drop_last());
                    assert(family_of(e) == Some(family@));
                }
                out.push(family);
                assert(family_views(out@) =~= family_views(before).push(family@));
            }
        }
        proof {
            assert(family_views(out@) =~= all.take(i + 1).filter_map(pick));
        }
        i = i + 1;
    }
    assert(all.take(i as int) =~= all);
    out
}

/// The frequency that the corrections give to a word.
fn find_preference(prefs: &Vec<DictionaryEntry>, e: &DictionaryEntry) -> (f: Option<u32>)
    ensures
        f == preferred(entry::entry_views(prefs@), e@.reading, e@.surface),
{
    let ghost all = entry::entry_views(prefs@);
    let mut left: usize = prefs.len();
    assert(all.take(left as int) =~= all);
    while left > 0
        invariant
            left <= prefs@.len(),
            all == entry::entry_views(prefs@),
            preferred(all, e@.reading, e@.surface) == preferred(
                all.take(left as int),
                e@.reading,
                e@.surface,
            ),
        decreases left,
    {
        proof {
            assert(all.take(left as int).drop_last() =~= all.take(left - 1));
            assert(all.take(left as int).last() == prefs@[left - 1]@);
        }
        left = left - 1;
        if prefs[left].reading == e.reading && prefs[left].surface == e.surface {
            return Some(prefs[left].frequency);
        }
    }
    None
}

/// The frequency of the first family that the word belongs to.
fn find_family(families: &Vec<VerbFamily>, e: &DictionaryEntry) -> (f: Option<u32>)
    ensures
        f == family_boost(family_views(families@), e@.reading, e@.surface),
{
    let ghost all = family_views(families@);
    let reading: Vec<char> = chars_of(e.reading.as_str());
    let surface: Vec<char> = chars_of(e.surface.as_str());
    let mut i: usize = 0;
    while i < families.len()
        invariant
            i <= families@.len(),
            all == family_views(families@),
            reading@ == e@.reading,
            surface@ == e@.surface,
            family_boost(all.take(i as int), e@.reading, e@.surface) is None,
        decreases families@.len() - i,
    {
        proof {
            assert(all.take(i + 1).drop_last() =~= all.take(i as int));
            assert(all.take(i + 1).last() == families@[i as int]@);
        }
        if begins_with(reading.as_slice(), families[i].reading.as_slice()) && begins_with(
            surface.as_slice(),
            families[i].surface.as_slice(),
        ) {
            proof {
                lemma_family_prefix(all, e@.reading, e@.surface, i + 1);
            }
            return Some(families[i].frequency);
        }
        i = i + 1;
    }
    assert(all.take(i as int) =~= all);
    None
}

proof fn lemma_family_prefix(
    families: Seq<FamilyView>,
    reading: Seq<char>,
    surface: Seq<char>,
    n: int,
)
    requires
        0 <= n <= families.len(),
        family_boost(families.take(n), reading, surface) is Some,
    ensures
        family_boost(families, reading, surface) == family_boost(
            families.take(n),
            reading,
            surface,
        ),
    decreases families.len() - n,
{
    if n < families.len() {
        assert(families.take(n + 1).drop_last() =~= families.take(n));
        lemma_family_prefix(families, reading, surface, n + 1);
    } else {
        assert(families.take(n) =~= families);
    }
}

/// The best kanji spellings of one reading, for the word classes that can be
/// capped.
#[derive(Clone, Copy)]
struct KanjiTops {
    verb: Option<u32>,
    adjective: Option<u32>,
    noun: Option<u32>,
}

spec fn tops_of(words: Seq<EntryView>, reading: Seq<char>) -> KanjiTops {
    KanjiTops {
        verb: kanji_top(words, reading, PartOfSpeech::Verb),
        adjective: kanji_top(words, reading, PartOfSpeech::Adjective),
        noun: kanji_top(words, reading, PartOfSpeech::Noun),
    }
}

spec fn tops_in(m: Map<Seq<char>, KanjiTops>, reading: Seq<char>) -> KanjiTops {
    if m.contains_key(reading) {
        m[reading]
    } else {
        KanjiTops { verb: None, adjective: None, noun: None }
    }
}

fn tops_at(map: &TextMap<KanjiTops>, reading: &str) -> (t: KanjiTops)
    requires
        map.wf(),
    ensures
        t == tops_in(map@, reading@),
{
    match map.get(reading) {
        Some(t) => *t,
        None => KanjiTops { verb: None, adjective: None, noun: None },
    }
}

/// The larger of a frequency and one that may be missing.
fn raised(old_top: Option<u32>, f: u32) -> (t: Option<u32>)
    ensures
        t == (match old_top {
            Some(g) => if g >= f {
                old_top
            } else {
                Some(f)
            },
            None => Some(f),
        }),
{
    match old_top {
        Some(g) => if g >= f {
            old_top
        } else {
            Some(f)
        },
        None => Some(f),
    }
}

/// The best kanji spellings of every reading.
fn collect_kanji_tops(words: &Vec<DictionaryEntry>) -> (map: TextMap<KanjiTops>)
    ensures
        map.wf(),
        forall|r: Seq<char>| #[trigger]
            tops_in(map@, r) == tops_of(entry::entry_views(words@), r),
{
    let ghost all = entry::entry_views(words@);
    let mut map: TextMap<KanjiTops> = TextMap::new();
    let mut i: usize = 0;
    while i < words.len()
        invariant
            i <= words@.len(),
            all == entry::entry_views(words@),
            map.wf(),
            forall|r: Seq<char>| #[trigger] tops_in(map@, r) == tops_of(all.take(i as int), r),
        decreases words@.len() - i,
    {
        let ghost e = all[i as int];
        let ghost before = map@;
        proof {
            assert(e == words@[i as int]@);
            assert(all.take(i + 1).drop_last() =~= all.take(i as int));
            assert(all.take(i + 1).last() == e);
        }
        let p: PartOfSpeech = words[i].pos;
        if (p == PartOfSpeech::Verb || p == PartOfSpeech::Adjective || p == PartOfSpeech::Noun)
            && surface_contains_kanji(words[i].surface.as_str()) {
            let f: u32 = words[i].frequency;
            let t: KanjiTops = tops_at(&map, words[i].reading.as_str());
            let next: KanjiTops = match p {
                PartOfSpeech::Verb => KanjiTops {
                    verb: raised(t.verb, f),
                    adjective: t.adjective,
                    noun: t.noun,
                },
                PartOfSpeech::Adjective => KanjiTops {
                    verb: t.verb,
                    adjective: raised(t.adjective, f),
                    noun: t.noun,
                },
                _ => KanjiTops {
                    verb: t.verb,
                    adjective: t.adjective,
                    noun: raised(t.noun, f),
                },
            };
            map.insert(words[i].reading.as_str(), next);
        }
        proof {
            assert forall|r: Seq<char>| #[trigger] tops_in(map@, r) == tops_of(
                all.take(i + 1),
                r,
            ) by {
                assert(tops_in(before, r) == tops_of(all.take(i as int), r));
            }
        }
        i = i + 1;
    }
    assert(all.take(i as int) =~= all);
    map
}

/// The words with their corrected frequencies.
fn corrected_words(words: &Vec<DictionaryEntry>) -> (out: Vec<DictionaryEntry>)
    ensures
        entry::entry_views(out@) == entry::entry_views(words@).map_values(
            |e: EntryView| corrected(entry::entry_views(words@), preferences(), e),
        ),
{
    let ghost all = entry::entry_views(words@);
    let mut prefs: Vec<DictionaryEntry> = Vec::new();
    push_weighted_table(&mut prefs, tables::PRIORITY_OVERRIDES, PartOfSpeech::Other);
    let ghost pv = preferences();
    assert(entry::entry_views(prefs@) =~= pv);
    let families: Vec<VerbFamily> = collect_verb_stems(&prefs);
    let tops: TextMap<KanjiTops> = collect_kanji_tops(words);
    let mut out: Vec<DictionaryEntry> = Vec::new();
    let mut i: usize = 0;
    while i < words.len()
        invariant
            i <= words@.len(),
            all == entry::entry_views(words@),
            pv == preferences(),
            entry::entry_views(prefs@) == pv,
            family_views(families@) == families_of(pv),
            tops.wf(),
            forall|r: Seq<char>| #[trigger] tops_in(tops@, r) == tops_of(all, r),
            out@.len() == i,
            forall|k: int| 0 <= k < i ==> (#[trigger] out@[k])@ == corrected(all, pv, all[k]),
        decreases words@.len() - i,
    {
        let ghost e = all[i as int];
        assert(e == words@[i as int]@);
        let w: &DictionaryEntry = &words[i];
        let own: u32 = match find_preference(&prefs, w) {
            Some(f) => f,
            None => w.frequency,
        };
        let lifted: u32 = if w.pos == PartOfSpeech::Verb || w.pos == PartOfSpeech::Adjective {
            match find_family(&families, w) {
                Some(b) => if own < b {
                    b
                } else {
                    own
                },
                None => own,
            }
        } else {
            own
        };
        let mut frequency: u32 = lifted;
        if (w.pos == PartOfSpeech::Verb || w.pos == PartOfSpeech::Adjective || w.pos
            == PartOfSpeech::Noun) && is_kata_dominant(w.surface.as_str()) {
            let t: KanjiTops = tops_at(&tops, w.reading.as_str());
            assert(t == tops_of(all, e.reading));
            let top: Option<u32> = match w.pos {
                PartOfSpeech::Verb => t.verb,
                PartOfSpeech::Adjective => t.adjective,
                _ => t.noun,
            };
            match top {
                Some(k) => {
                    let cap: u32 = if k < KATAKANA_GAP + KATAKANA_FLOOR {
                        KATAKANA_FLOOR
                    } else {
                        k - KATAKANA_GAP
                    };
                    if frequency > cap {
                        frequency = cap;
                    }
                },
                None => {},
            }
        }
        out.push(
            DictionaryEntry {
                reading: w.reading.clone(),
                surface: w.surface.clone(),
                pos: w.pos,
                frequency,
            },
        );
        i = i + 1;
    }
    proof {
        assert(entry::entry_views(out@) =~= all.map_values(
            |e: EntryView| corrected(all, pv, e),
        ));
    }
    out
}

/// The built-in entries: corrected words, supplementary lists and emoji.
pub fn load_builtin(words: &Vec<DictionaryEntry>, emoji_tsv: &str) -> (out: Vec<DictionaryEntry>)
    ensures
        entry::entry_views(out@) == builtin_entries(entry::entry_views(words@), emoji_tsv@),
{
    let mut out: Vec<DictionaryEntry> = corrected_words(words);
    load_symbol_entries(&mut out);
    load_emoji_entries(&mut out, emoji_tsv);
    out
}

impl Dictionary {
    /// The dictionary with its built-in words: the generated list, the
    /// supplementary lists and the emoji.
    pub fn new(words: &Vec<DictionaryEntry>, emoji_tsv: &str, logs: NanoTable) -> (dict: Dictionary)
        requires
            logs.wf(),
        ensures
            dict.wf(),
            dict@ == builtin_entries(entry::entry_views(words@), emoji_tsv@),
            dict.builtin_count() == dict@.len(),
            dict.log_table() == logs,
    {
        let list: Vec<DictionaryEntry> = load_builtin(words, emoji_tsv);
        Dictionary::with_builtin(&list, logs)
    }
}

proof fn lemma_kanji_top(words: Seq<EntryView>, k: int, p: PartOfSpeech)
    requires
        0 <= k < words.len(),
        words[k].pos == p,
        holds_kanji(words[k].surface),
    ensures
        kanji_top(words, words[k].reading, p) matches Some(top) && words[k].frequency <= top,
    decreases words.len(),
{
    if k < words.len() - 1 {
        let rest = words.drop_last();
        assert(rest[k] == words[k]);
        lemma_kanji_top(rest, k, p);
    }
}

/// A katakana spelling stays below the spelling with kanji: beside a word of
/// the same reading and kind that is written with kanji, it is no more frequent
/// than the cap, which lies below the most frequent such word unless that word
/// is very rare itself.
pub proof fn law_katakana_stays_below(
    words: Seq<EntryView>,
    prefs: Seq<EntryView>,
    e: EntryView,
    k: int,
)
    requires
        can_be_capped(e.pos),
        kata_dominant(e.surface),
        0 <= k < words.len(),
        words[k].reading == e.reading,
        words[k].pos == e.pos,
        holds_kanji(words[k].surface),
    ensures
        kanji_top(words, e.reading, e.pos) matches Some(top) && {
            &&& words[k].frequency <= top
            &&& corrected(words, prefs, e).frequency <= katakana_cap(top)
            &&& top > KATAKANA_FLOOR ==> corrected(words, prefs, e).frequency < top
        },
{
    lemma_kanji_top(words, k, e.pos);
}

/// The ranges of kanji and of katakana.
pub proof fn law_scripts(c: char)
    ensures
        is_kanji(c) <==> ('\u{4e00}' <= c <= '\u{9fff}' || '\u{3400}' <= c <= '\u{4dbf}'),
        is_katakana(c) <==> '\u{30a1}' <= c <= '\u{30f6}',
{
}

/// A word is written in katakana if it has a katakana character and no kanji.
pub proof fn law_katakana_words(s: Seq<char>)
    ensures
        kata_dominant(s) <==> (exists|i: int|
            0 <= i < s.len() && '\u{30a1}' <= #[trigger] s[i] <= '\u{30f6}') && forall|i: int|
            0 <= i < s.len() ==> !('\u{4e00}' <= #[trigger] s[i] <= '\u{9fff}') && !('\u{3400}'
                <= s[i] <= '\u{4dbf}'),
{
    if exists|i: int| 0 <= i < s.len() && '\u{30a1}' <= #[trigger] s[i] <= '\u{30f6}' {
        let i = choose|i: int| 0 <= i < s.len() && '\u{30a1}' <= #[trigger] s[i] <= '\u{30f6}';
        assert(is_katakana(s[i]));
    }
    if holds_kanji(s) {
        let i = choose|i: int| 0 <= i < s.len() && is_kanji(#[trigger] s[i]);
        assert(is_kanji(s[i]));
    }
    if forall|i: int|
        0 <= i < s.len() ==> !('\u{4e00}' <= #[trigger] s[i] <= '\u{9fff}') && !('\u{3400}' <= s[i]
            <= '\u{4dbf}') {
        assert(!holds_kanji(s));
    }
    if kata_dominant(s) {
        let i = choose|i: int| 0 <= i < s.len() && is_katakana(#[trigger] s[i]);
        assert('\u{30a1}' <= s[i] <= '\u{30f6}');
        assert forall|k: int| 0 <= k < s.len() implies !('\u{4e00}' <= #[trigger] s[k] <= '\u{9fff}')
            && !('\u{3400}' <= s[k] <= '\u{4dbf}') by {
            assert(!is_kanji(s[k]));
        }
    }
}

/// The surfaces of a row become entries of its reading, each one a step less frequent
/// than the one before, down to 0.
pub proof fn law_rows_are_graded(
    row: Seq<Seq<char>>,
    p: PartOfSpeech,
    base: int,
    step: int,
    i: int,
)
    requires
        row.len() > 0,
        0 <= i < row.len() - 1,
        0 <= base <= u32::MAX,
        0 <= step,
    ensures
        ({
            let out = graded_row(row, p, base, step);
            &&& out.len() == row.len() - 1
            &&& out[i].reading == row[0]
            &&& out[i].surface == row[i + 1]
            &&& out[i].pos == p
            &&& out[i].frequency == (if i * step >= base {
                0
            } else {
                base - i * step
            })
        }),
{
    assert(0 <= i * step) by (nonlinear_arith)
        requires
            0 <= i,
            0 <= step,
    ;
}

proof fn lemma_graded_rows_hold(
    rows: Seq<Seq<Seq<char>>>,
    p: PartOfSpeech,
    base: int,
    step: int,
    r: int,
    e: EntryView,
)
    requires
        0 <= r < rows.len(),
        graded_row(rows[r], p, base, step).contains(e),
    ensures
        graded_rows(rows, p, base, step).contains(e),
    decreases rows.len(),
{
    let before = graded_rows(rows.drop_last(), p, base, step);
    let new = graded_row(rows.last(), p, base, step);
    if r < rows.len() - 1 {
        lemma_graded_rows_hold(rows.drop_last(), p, base, step, r, e);
        let w = choose|w: int| 0 <= w < before.len() && before[w] == e;
        assert((before + new)[w] == e);
    } else {
        let w = choose|w: int| 0 <= w < new.len() && new[w] == e;
        assert((before + new)[before.len() + w] == e);
    }
}

proof fn lemma_weighted_rows_hold(
    rows: Seq<Seq<Seq<char>>>,
    p: PartOfSpeech,
    r: int,
    e: EntryView,
)
    requires
        0 <= r < rows.len(),
        weighted_row(rows[r], p).contains(e),
    ensures
        weighted_rows(rows, p).contains(e),
    decreases rows.len(),
{
    let before = weighted_rows(rows.drop_last(), p);
    let new = weighted_row(rows.last(), p);
    if r < rows.len() - 1 {
        lemma_weighted_rows_hold(rows.drop_last(), p, r, e);
        let w = choose|w: int| 0 <= w < before.len() && before[w] == e;
        assert((before + new)[w] == e);
    } else {
        let w = choose|w: int| 0 <= w < new.len() && new[w] == e;
        assert((before + new)[before.len() + w] == e);
    }
}

/// A row that starts with a number gives its surfaces that frequency; a row without one
/// gives nothing.
pub proof fn law_rows_are_weighted(
    rows: Seq<Seq<Seq<char>>>,
    p: PartOfSpeech,
    r: int,
    k: int,
)
    requires
        0 <= r < rows.len(),
        2 <= k < rows[r].len(),
    ensures
        scan::unsigned_of(rows[r][0], 10, 0xffff_ffff) matches Some(f) ==> weighted_rows(
            rows,
            p,
        ).contains(
            EntryView {
                reading: rows[r][1],
                surface: rows[r][k],
                pos: p,
                frequency: f as u32,
            },
        ),
        scan::unsigned_of(rows[r][0], 10, 0xffff_ffff) is None ==> weighted_row(
            rows[r],
            p,
        ).len() == 0,
{
    if scan::unsigned_of(rows[r][0], 10, 0xffff_ffff) is Some {
        let f = scan::unsigned_of(rows[r][0], 10, 0xffff_ffff)->0;
        let rest = rows[r].skip(1);
        let out = weighted_row(rows[r], p);
        let e = EntryView {
            reading: rows[r][1],
            surface: rows[r][k],
            pos: p,
            frequency: f as u32,
        };
        assert((k - 2) * 0 == 0);
        lemma_unsigned_in_range(rows[r][0]);
        assert(out[k - 2] == e);
        lemma_weighted_rows_hold(rows, p, r, e);
    }
}

proof fn lemma_unsigned_in_range(s: Seq<char>)
    ensures
        scan::unsigned_of(s, 10, 0xffff_ffff) matches Some(n) ==> 0 <= n <= 0xffff_ffff,
{
    lemma_number_is_natural(scan::without_plus(s));
}

proof fn lemma_number_is_natural(s: Seq<char>)
    ensures
        scan::number_of(s, 10) matches Some(n) ==> n >= 0,
    decreases s.len(),
{
    if s.len() > 0 {
        lemma_number_is_natural(s.drop_last());
    }
}

/// What the tables add. Every surface of their rows becomes an entry of the row's
/// reading: symbols as words of no known kind from frequency 500 down in steps of 10,
/// auxiliaries and set phrases at 9000, verbs with "suru" from 9000 down in steps of
/// 100, passive auxiliaries at 8500, compound particles at 9200, compound nouns and box
/// drawing at 8000.
pub proof fn law_tables_are_loaded(r: int, k: int)
    ensures
        ({
            let rows = rows_of(tables::SYMBOLS@);
            0 <= r < rows.len() && 1 <= k < rows[r].len() ==> supplement().contains(
                EntryView {
                    reading: rows[r][0],
                    surface: rows[r][k],
                    pos: PartOfSpeech::Other,
                    frequency: lowered(500, (k - 1) * 10),
                },
            )
        }),
        ({
            let rows = rows_of(tables::AUXILIARIES@);
            0 <= r < rows.len() && 1 <= k < rows[r].len() ==> supplement().contains(
                EntryView {
                    reading: rows[r][0],
                    surface: rows[r][k],
                    pos: PartOfSpeech::Auxiliary,
                    frequency: 9000,
                },
            )
        }),
        ({
            let rows = rows_of(tables::SAHEN_COMPOUNDS@);
            0 <= r < rows.len() && 1 <= k < rows[r].len() ==> supplement().contains(
                EntryView {
                    reading: rows[r][0],
                    surface: rows[r][k],
                    pos: PartOfSpeech::Verb,
                    frequency: lowered(9000, (k - 1) * 100),
                },
            )
        }),
        ({
            let rows = rows_of(tables::FORMULAIC@);
            0 <= r < rows.len() && 1 <= k < rows[r].len() ==> supplement().contains(
                EntryView {
                    reading: rows[r][0],
                    surface: rows[r][k],
                    pos: PartOfSpeech::Auxiliary,
                    frequency: 9000,
                },
            )
        }),
        ({
            let rows = rows_of(tables::SARERU_AUXILIARIES@);
            0 <= r < rows.len() && 1 <= k < rows[r].len() ==> supplement().contains(
                EntryView {
                    reading: rows[r][0],
                    surface: rows[r][k],
                    pos: PartOfSpeech::Auxiliary,
                    frequency: 8500,
                },
            )
        }),
        ({
            let rows = rows_of(tables::COMPOUND_PARTICLES@);
            0 <= r < rows.len() && 1 <= k < rows[r].len() ==> supplement().contains(
                EntryView {
                    reading: rows[r][0],
                    surface: rows[r][k],
                    pos: PartOfSpeech::Particle,
                    frequency: 9200,
                },
            )
        }),
        ({
            let rows = rows_of(tables::COMPOUND_NOUNS@);
            0 <= r < rows.len() && 1 <= k < rows[r].len() ==> supplement().contains(
                EntryView {
                    reading: rows[r][0],
                    surface: rows[r][k],
                    pos: PartOfSpeech::Noun,
                    frequency: 8000,
                },
            )
        }),
        ({
            let rows = rows_of(tables::BOX_DRAWING@);
            0 <= r < rows.len() && 1 <= k < rows[r].len() ==> supplement().contains(
                EntryView {
                    reading: rows[r][0],
                    surface: rows[r][k],
                    pos: PartOfSpeech::Noun,
                    frequency: 8000,
                },
            )
        }),
{
    lemma_graded_table(tables::SYMBOLS@, PartOfSpeech::Other, 500, 10, r, k);
    lemma_graded_table(tables::AUXILIARIES@, PartOfSpeech::Auxiliary, 9000, 0, r, k);
    lemma_graded_table(tables::SAHEN_COMPOUNDS@, PartOfSpeech::Verb, 9000, 100, r, k);
    lemma_graded_table(tables::FORMULAIC@, PartOfSpeech::Auxiliary, 9000, 0, r, k);
    lemma_graded_table(tables::SARERU_AUXILIARIES@, PartOfSpeech::Auxiliary, 8500, 0, r, k);
    lemma_graded_table(tables::COMPOUND_PARTICLES@, PartOfSpeech::Particle, 9200, 0, r, k);
    lemma_graded_table(tables::COMPOUND_NOUNS@, PartOfSpeech::Noun, 8000, 0, r, k);
    lemma_graded_table(tables::BOX_DRAWING@, PartOfSpeech::Noun, 8000, 0, r, k);
    lemma_supplement_holds();
}

proof fn lemma_graded_table(
    table: Seq<char>,
    p: PartOfSpeech,
    base: int,
    step: int,
    r: int,
    k: int,
)
    requires
        0 <= base <= u32::MAX,
        0 <= step,
    ensures
        ({
            let rows = rows_of(table);
            0 <= r < rows.len() && 1 <= k < rows[r].len() ==> graded_rows(
                rows,
                p,
                base,
                step,
            ).contains(
                EntryView {
                    reading: rows[r][0],
                    surface: rows[r][k],
                    pos: p,
                    frequency: lowered(base, (k - 1) * step),
                },
            )
        }),
        step == 0 && base > 0 ==> lowered(base, (k - 1) * step) == base,
{
    let rows = rows_of(table);
    if 0 <= r < rows.len() && 1 <= k < rows[r].len() {
        let out = graded_row(rows[r], p, base, step);
        let e = EntryView {
            reading: rows[r][0],
            surface: rows[r][k],
            pos: p,
            frequency: lowered(base, (k - 1) * step),
        };
        assert(out[k - 1] == e);
        lemma_graded_rows_hold(rows, p, base, step, r, e);
    }
    assert((k - 1) * 0 == 0);
}

proof fn lemma_sum_holds(a: Seq<EntryView>, b: Seq<EntryView>)
    ensures
        forall|e: EntryView| #[trigger] a.contains(e) ==> (a + b).contains(e),
        forall|e: EntryView| #[trigger] b.contains(e) ==> (a + b).contains(e),
{
    assert forall|e: EntryView| #[trigger] a.contains(e) implies (a + b).contains(e) by {
        let w = choose|w: int| 0 <= w < a.len() && a[w] == e;
        assert((a + b)[w] == e);
    }
    assert forall|e: EntryView| #[trigger] b.contains(e) implies (a + b).contains(e) by {
        let w = choose|w: int| 0 <= w < b.len() && b[w] == e;
        assert((a + b)[a.len() + w] == e);
    }
}

proof fn lemma_supplement_holds()
    ensures
        forall|e: EntryView| #[trigger]
            graded_rows(rows_of(tables::SYMBOLS@), PartOfSpeech::Other, 500, 10).contains(e) ==> supplement().contains(e),
        forall|e: EntryView| #[trigger]
            graded_rows(rows_of(tables::AUXILIARIES@), PartOfSpeech::Auxiliary, 9000, 0).contains(e) ==> supplement().contains(e),
        forall|e: EntryView| #[trigger]
            graded_rows(rows_of(tables::SAHEN_COMPOUNDS@), PartOfSpeech::Verb, 9000, 100).contains(e) ==> supplement().contains(e),
        forall|e: EntryView| #[trigger]
            graded_rows(rows_of(tables::FORMULAIC@), PartOfSpeech::Auxiliary, 9000, 0).contains(e) ==> supplement().contains(e),
        forall|e: EntryView| #[trigger]
            graded_rows(rows_of(tables::SARERU_AUXILIARIES@), PartOfSpeech::Auxiliary, 8500, 0).contains(e) ==> supplement().contains(e),
        forall|e: EntryView| #[trigger]
            verb_rows(rows_of(tables::GODAN_SU_VERBS@), scan::fields_of(tables::SU_TAILS@)).contains(e) ==> supplement().contains(e),
        forall|e: EntryView| #[trigger]
            graded_rows(rows_of(tables::COMPOUND_PARTICLES@), PartOfSpeech::Particle, 9200, 0).contains(e) ==> supplement().contains(e),
        forall|e: EntryView| #[trigger]
            graded_rows(rows_of(tables::COMPOUND_NOUNS@), PartOfSpeech::Noun, 8000, 0).contains(e) ==> supplement().contains(e),
        forall|e: EntryView| #[trigger]
            weighted_rows(rows_of(tables::KATAKANA_TERMS@), PartOfSpeech::Noun).contains(e) ==> supplement().contains(e),
        forall|e: EntryView| #[trigger]
            weighted_rows(rows_of(tables::GENERAL_SUPPLEMENT@), PartOfSpeech::Noun).contains(e) ==> supplement().contains(e),
        forall|e: EntryView| #[trigger]
            graded_rows(rows_of(tables::BOX_DRAWING@), PartOfSpeech::Noun, 8000, 0).contains(e) ==> supplement().contains(e),
{
    let s0 = graded_rows(rows_of(tables::SYMBOLS@), PartOfSpeech::Other, 500, 10);
    let s1 = graded_rows(rows_of(tables::AUXILIARIES@), PartOfSpeech::Auxiliary, 9000, 0);
    let s2 = graded_rows(rows_of(tables::SAHEN_COMPOUNDS@), PartOfSpeech::Verb, 9000, 100);
    let s3 = graded_rows(rows_of(tables::FORMULAIC@), PartOfSpeech::Auxiliary, 9000, 0);
    let s4 = graded_rows(rows_of(tables::SARERU_AUXILIARIES@), PartOfSpeech::Auxiliary, 8500, 0);
    let s5 = verb_rows(rows_of(tables::GODAN_SU_VERBS@), scan::fields_of(tables::SU_TAILS@));
    let s6 = graded_rows(rows_of(tables::COMPOUND_PARTICLES@), PartOfSpeech::Particle, 9200, 0);
    let s7 = graded_rows(rows_of(tables::COMPOUND_NOUNS@), PartOfSpeech::Noun, 8000, 0);
    let s8 = weighted_rows(rows_of(tables::KATAKANA_TERMS@), PartOfSpeech::Noun);
    let s9 = weighted_rows(rows_of(tables::GENERAL_SUPPLEMENT@), PartOfSpeech::Noun);
    let s10 = graded_rows(rows_of(tables::BOX_DRAWING@), PartOfSpeech::Noun, 8000, 0);
    let t1 = s0 + s1;
    lemma_sum_holds(s0, s1);
    let t2 = t1 + s2;
    lemma_sum_holds(t1, s2);
    let t3 = t2 + s3;
    lemma_sum_holds(t2, s3);
    let t4 = t3 + s4;
    lemma_sum_holds(t3, s4);
    let t5 = t4 + s5;
    lemma_sum_holds(t4, s5);
    let t6 = t5 + s6;
    lemma_sum_holds(t5, s6);
    let t7 = t6 + s7;
    lemma_sum_holds(t6, s7);
    let t8 = t7 + s8;
    lemma_sum_holds(t7, s8);
    let t9 = t8 + s9;
    lemma_sum_holds(t8, s9);
    let t10 = t9 + s10;
    lemma_sum_holds(t9, s10);
    assert(supplement() == t10);
    assert forall|e: EntryView| #[trigger] s0.contains(e) implies supplement().contains(e) by {
        assert(t1.contains(e));
        assert(t2.contains(e));
        assert(t3.contains(e));
        assert(t4.contains(e));
        assert(t5.contains(e));
        assert(t6.contains(e));
        assert(t7.contains(e));
        assert(t8.contains(e));
        assert(t9.contains(e));
        assert(t10.contains(e));
    }
    assert forall|e: EntryView| #[trigger] s1.contains(e) implies supplement().contains(e) by {
        assert(t1.contains(e));
        assert(t2.contains(e));
        assert(t3.contains(e));
        assert(t4.contains(e));
        assert(t5.contains(e));
        assert(t6.contains(e));
        assert(t7.contains(e));
        assert(t8.contains(e));
        assert(t9.contains(e));
        assert(t10.contains(e));
    }
    assert forall|e: EntryView| #[trigger] s2.contains(e) implies supplement().contains(e) by {
        assert(t2.contains(e));
        assert(t3.contains(e));
        assert(t4.contains(e));
        assert(t5.contains(e));
        assert(t6.contains(e));
        assert(t7.contains(e));
        assert(t8.contains(e));
        assert(t9.contains(e));
        assert(t10.contains(e));
    }
    assert forall|e: EntryView| #[trigger] s3.contains(e) implies supplement().contains(e) by {
        assert(t3.contains(e));
        assert(t4.contains(e));
        assert(t5.contains(e));
        assert(t6.contains(e));
        assert(t7.contains(e));
        assert(t8.contains(e));
        assert(t9.contains(e));
        assert(t10.contains(e));
    }
    assert forall|e: EntryView| #[trigger] s4.contains(e) implies supplement().contains(e) by {
        assert(t4.contains(e));
        assert(t5.contains(e));
        assert(t6.contains(e));
        assert(t7.contains(e));
        assert(t8.contains(e));
        assert(t9.contains(e));
        assert(t10.contains(e));
    }
    assert forall|e: EntryView| #[trigger] s5.contains(e) implies supplement().contains(e) by {
        assert(t5.contains(e));
        assert(t6.contains(e));
        assert(t7.contains(e));
        assert(t8.contains(e));
        assert(t9.contains(e));
        assert(t10.contains(e));
    }
    assert forall|e: EntryView| #[trigger] s6.contains(e) implies supplement().contains(e) by {
        assert(t6.contains(e));
        assert(t7.contains(e));
        assert(t8.contains(e));
        assert(t9.contains(e));
        assert(t10.contains(e));
    }
    assert forall|e: EntryView| #[trigger] s7.contains(e) implies supplement().contains(e) by {
        assert(t7.contains(e));
        assert(t8.contains(e));
        assert(t9.contains(e));
        assert(t10.contains(e));
    }
    assert forall|e: EntryView| #[trigger] s8.contains(e) implies supplement().contains(e) by {
        assert(t8.contains(e));
        assert(t9.contains(e));
        assert(t10.contains(e));
    }
    assert forall|e: EntryView| #[trigger] s9.contains(e) implies supplement().contains(e) by {
        assert(t9.contains(e));
        assert(t10.contains(e));
    }
    assert forall|e: EntryView| #[trigger] s10.contains(e) implies supplement().contains(e) by {
        assert(t10.contains(e));
    }
}

/// The words that have frequencies of their own are loaded with them, as nouns.
pub proof fn law_weighted_tables_are_loaded(r: int, k: int)
    ensures
        ({
            let rows = rows_of(tables::KATAKANA_TERMS@);
            0 <= r < rows.len() && 2 <= k < rows[r].len() ==> (scan::unsigned_of(
                rows[r][0],
                10,
                0xffff_ffff,
            ) matches Some(f) ==> supplement().contains(
                EntryView {
                    reading: rows[r][1],
                    surface: rows[r][k],
                    pos: PartOfSpeech::Noun,
                    frequency: f as u32,
                },
            ))
        }),
        ({
            let rows = rows_of(tables::GENERAL_SUPPLEMENT@);
            0 <= r < rows.len() && 2 <= k < rows[r].len() ==> (scan::unsigned_of(
                rows[r][0],
                10,
                0xffff_ffff,
            ) matches Some(f) ==> supplement().contains(
                EntryView {
                    reading: rows[r][1],
                    surface: rows[r][k],
                    pos: PartOfSpeech::Noun,
                    frequency: f as u32,
                },
            ))
        }),
{
    lemma_supplement_holds();
    let a = rows_of(tables::KATAKANA_TERMS@);
    let b = rows_of(tables::GENERAL_SUPPLEMENT@);
    if 0 <= r < a.len() && 2 <= k < a[r].len() {
        law_rows_are_weighted(a, PartOfSpeech::Noun, r, k);
    }
    if 0 <= r < b.len() && 2 <= k < b[r].len() {
        law_rows_are_weighted(b, PartOfSpeech::Noun, r, k);
    }
}

proof fn lemma_tails_hold(
    reading: Seq<char>,
    surfaces: Seq<Seq<char>>,
    tails: Seq<Seq<char>>,
    base: int,
    i: int,
    e: EntryView,
)
    requires
        0 <= i < tails.len(),
        with_tail(reading, surfaces, tails[i], base).contains(e),
    ensures
        with_tails(reading, surfaces, tails, base).contains(e),
    decreases tails.len(),
{
    let before = with_tails(reading, surfaces, tails.drop_last(), base);
    let new = with_tail(reading, surfaces, tails.last(), base);
    if i < tails.len() - 1 {
        lemma_tails_hold(reading, surfaces, tails.drop_last(), base, i, e);
        let w = choose|w: int| 0 <= w < before.len() && before[w] == e;
        assert((before + new)[w] == e);
    } else {
        let w = choose|w: int| 0 <= w < new.len() && new[w] == e;
        assert((before + new)[before.len() + w] == e);
    }
}

/// A row with a number and a verb gives its forms: reading and surfaces without their
/// last character, with each of the tails in its place, as verbs whose frequency falls
/// by 50 from one surface to the next.
pub proof fn law_verbs_are_inflected(row: Seq<Seq<char>>, tails: Seq<Seq<char>>, i: int, k: int)
    requires
        row.len() >= 2,
        row[1].len() > 0,
        0 <= i < tails.len(),
        2 <= k < row.len(),
        row[k].len() > 0,
    ensures
        scan::unsigned_of(row[0], 10, 0xffff_ffff) matches Some(f) ==> verb_row(
            row,
            tails,
        ).contains(
            EntryView {
                reading: row[1].take(row[1].len() - 1) + tails[i],
                surface: row[k].take(row[k].len() - 1) + tails[i],
                pos: PartOfSpeech::Verb,
                frequency: lowered(f, (k - 2) * 50),
            },
        ),
        scan::unsigned_of(row[0], 10, 0xffff_ffff) is None ==> verb_row(row, tails).len() == 0,
{
    if scan::unsigned_of(row[0], 10, 0xffff_ffff) is Some {
        let f = scan::unsigned_of(row[0], 10, 0xffff_ffff)->0;
        let surfaces = row.skip(2);
        let out = with_tail(row[1], surfaces, tails[i], f);
        let e = EntryView {
            reading: row[1].take(row[1].len() - 1) + tails[i],
            surface: row[k].take(row[k].len() - 1) + tails[i],
            pos: PartOfSpeech::Verb,
            frequency: lowered(f, (k - 2) * 50),
        };
        assert(row[1].drop_last() =~= row[1].take(row[1].len() - 1));
        assert(row[k].drop_last() =~= row[k].take(row[k].len() - 1));
        assert(surfaces[k - 2] == row[k]);
        assert(out[k - 2] == e);
        lemma_tails_hold(row[1], surfaces, tails, f, i, e);
    }
}

/// A line of the emoji table holds a reading, a tab and the emoji; these become words of
/// no known kind from frequency 500 down in steps of 10. Empty lines, lines without a
/// tab and lines that start with a number sign give nothing.
pub proof fn law_emoji_lines(line: Seq<char>, at: int, i: int)
    ensures
        ({
            let t = scan::trimmed(line);
            let out = emoji_row(line);
            &&& t.len() == 0 || t[0] == '#' || (forall|k: int|
                0 <= k < t.len() ==> #[trigger] t[k] != '\t') ==> out.len() == 0
            &&& t.len() > 0 && t[0] != '#' && 0 <= at < t.len() && t[at] == '\t' && (forall|k: int|
                0 <= k < at ==> #[trigger] t[k] != '\t') ==> ({
                let found = scan::fields_of(t.skip(at + 1));
                &&& out.len() == found.len()
                &&& 0 <= i < out.len() ==> out[i].reading == t.take(at) && out[i].surface == found[i]
                    && out[i].pos is Other && out[i].frequency == (if 10 * i >= 500 {
                    0
                } else {
                    500 - 10 * i
                })
            })
        }),
{
    let t = scan::trimmed(line);
    scan::law_index_is_the_first(t, '\t');
    let first = scan::index_of(t, '\t');
    if first < t.len() {
        assert(t[first] == '\t');
    }
    if 0 <= at < t.len() && t[at] == '\t' && forall|k: int| 0 <= k < at ==> #[trigger] t[k] != '\t' {
        if at < first {
            assert(t[at] != '\t');
        }
    }
}

/// The last preference for a word counts.
pub proof fn law_last_preference_counts(
    prefs: Seq<EntryView>,
    reading: Seq<char>,
    surface: Seq<char>,
    i: int,
)
    ensures
        0 <= i < prefs.len() && prefs[i].reading == reading && prefs[i].surface == surface && (
        forall|j: int|
            i < j < prefs.len() ==> (#[trigger] prefs[j]).reading != reading || prefs[j].surface
                != surface) ==> preferred(prefs, reading, surface) == Some(prefs[i].frequency),
        (forall|j: int|
            0 <= j < prefs.len() ==> (#[trigger] prefs[j]).reading != reading || prefs[j].surface
                != surface) ==> preferred(prefs, reading, surface) is None,
    decreases prefs.len(),
{
    if prefs.len() > 0 {
        let rest = prefs.drop_last();
        law_last_preference_counts(rest, reading, surface, i);
        assert(prefs.last() == prefs[prefs.len() - 1]);
        assert(forall|j: int| 0 <= j < rest.len() ==> (#[trigger] rest[j]) == prefs[j]);
    }
}

/// A preferred verb of three or more characters that is written with kanji lends its
/// frequency to the words that share its beginning, in reading and surface alike. The
/// beginning is all but the last character, which both must have in common.
pub proof fn law_families(e: EntryView)
    ensures
        ({
            let c = e.reading.last();
            let verb = e.reading.len() >= 3 && e.surface.len() > 0 && e.surface.last() == c && (c
                == 'る' || c == 'む' || c == 'ぶ' || c == 'く' || c == 'ぐ' || c == 'す' || c == 'つ'
                || c == 'う' || c == 'ぬ') && exists|i: int|
                0 <= i < e.surface.len() && is_kanji(#[trigger] e.surface[i]);
            &&& !verb ==> family_of(e) is None
            &&& verb ==> (family_of(e) matches Some(f) && f.reading == e.reading.take(
                e.reading.len() - 1,
            ) && f.surface == e.surface.take(e.surface.len() - 1) && f.frequency == e.frequency)
        }),
{
    if e.reading.len() > 0 {
        assert(e.reading.drop_last() =~= e.reading.take(e.reading.len() - 1));
    }
    if e.surface.len() > 0 {
        assert(e.surface.drop_last() =~= e.surface.take(e.surface.len() - 1));
    }
}

/// The first family that a word belongs to counts.
pub proof fn law_first_family_counts(
    families: Seq<FamilyView>,
    reading: Seq<char>,
    surface: Seq<char>,
    i: int,
)
    requires
        forall|j: int|
            0 <= j < i && j < families.len() ==> !((#[trigger] families[j]).reading.is_prefix_of(
                reading,
            ) && families[j].surface.is_prefix_of(surface)),
    ensures
        0 <= i < families.len() && families[i].reading.is_prefix_of(reading)
            && families[i].surface.is_prefix_of(surface) ==> family_boost(
            families,
            reading,
            surface,
        ) == Some(families[i].frequency),
        i >= families.len() ==> family_boost(families, reading, surface) is None,
    decreases families.len(),
{
    if families.len() > 0 {
        let rest = families.drop_last();
        assert forall|j: int| 0 <= j < i && j < rest.len() implies !((
        #[trigger] rest[j]).reading.is_prefix_of(reading) && rest[j].surface.is_prefix_of(
            surface,
        )) by {
            assert(rest[j] == families[j]);
        }
        law_first_family_counts(rest, reading, surface, i);
        if 0 <= i < rest.len() {
            assert(rest[i] == families[i]);
        }
        if i >= families.len() {
            assert(families[families.len() - 1] == families.last());
        }
    }
}

/// How a word's frequency is corrected. A preference takes its place. Verbs and
/// adjectives are lifted to that of their family. A noun, verb or adjective in katakana
/// is held 200 below the most frequent kanji word of the same reading and kind, but not
/// below 500. Reading, surface and kind stay.
pub proof fn law_frequency_is_corrected(
    words: Seq<EntryView>,
    prefs: Seq<EntryView>,
    e: EntryView,
)
    ensures
        ({
            let c = corrected(words, prefs, e);
            let own = match preferred(prefs, e.reading, e.surface) {
                Some(f) => f,
                None => e.frequency,
            };
            let family = family_boost(families_of(prefs), e.reading, e.surface);
            let lifted = if (e.pos is Verb || e.pos is Adjective) && family is Some && family->0
                > own {
                family->0
            } else {
                own
            };
            let held = (e.pos is Verb || e.pos is Adjective || e.pos is Noun) && kata_dominant(
                e.surface,
            );
            let top = kanji_top(words, e.reading, e.pos);
            let cap: int = if top is Some && top->0 >= 700 {
                top->0 - 200
            } else {
                500
            };
            &&& c.reading == e.reading && c.surface == e.surface && c.pos == e.pos
            &&& !held || top is None || lifted <= cap ==> c.frequency == lifted
            &&& held && top is Some && lifted > cap ==> c.frequency == cap
        }),
{
}

/// The most frequent kanji word of a reading and kind.
pub proof fn law_most_frequent_kanji_word(
    words: Seq<EntryView>,
    reading: Seq<char>,
    p: PartOfSpeech,
)
    ensures
        kanji_top(words, reading, p) matches Some(f) ==> exists|i: int|
            0 <= i < words.len() && (#[trigger] words[i]).reading == reading && words[i].pos == p
                && holds_kanji(words[i].surface) && words[i].frequency == f,
        kanji_top(words, reading, p) is None ==> forall|i: int|
            0 <= i < words.len() && (#[trigger] words[i]).reading == reading && words[i].pos == p
                ==> !holds_kanji(words[i].surface),
        kanji_top(words, reading, p) matches Some(f) ==> forall|i: int|
            0 <= i < words.len() && (#[trigger] words[i]).reading == reading && words[i].pos == p
                && holds_kanji(words[i].surface) ==> words[i].frequency <= f,
    decreases words.len(),
{
    if words.len() > 0 {
        let rest = words.drop_last();
        law_most_frequent_kanji_word(rest, reading, p);
        assert(words.last() == words[words.len() - 1]);
        assert(forall|i: int| 0 <= i < rest.len() ==> (#[trigger] rest[i]) == words[i]);
        let top = kanji_top(words, reading, p);
        if top is Some {
            if top == kanji_top(rest, reading, p) {
                let i = choose|i: int|
                    0 <= i < rest.len() && (#[trigger] rest[i]).reading == reading && rest[i].pos
                        == p && holds_kanji(rest[i].surface) && rest[i].frequency == top->0;
                assert(words[i] == rest[i]);
            }
            assert forall|i: int|
                0 <= i < words.len() && (#[trigger] words[i]).reading == reading && words[i].pos
                    == p && holds_kanji(words[i].surface) implies words[i].frequency <= top->0 by {
                if i < rest.len() {
                    assert(rest[i] == words[i]);
                }
            }
        } else {
            assert forall|i: int|
                0 <= i < words.len() && (#[trigger] words[i]).reading == reading && words[i].pos
                    == p implies !holds_kanji(words[i].surface) by {
                if i < rest.len() {
                    assert(rest[i] == words[i]);
                }
            }
        }
    }
}

/// The built-in dictionary holds the given words, corrected and in their order, then
/// what the tables add, then the emoji.
pub proof fn law_builtin_words_are_kept(words: Seq<EntryView>, emoji: Seq<char>, i: int)
    ensures
        ({
            let all = builtin_entries(words, emoji);
            let n = words.len() as int;
            let m = supplement().len() as int;
            let last = emoji_rows(scan::lines_of(emoji));
            &&& all.len() == n + m + last.len()
            &&& 0 <= i < n ==> all[i] == corrected(words, preferences(), words[i])
            &&& 0 <= i < m ==> all[n + i] == supplement()[i]
            &&& 0 <= i < last.len() ==> all[n + m + i] == last[i]
        }),
{
}

proof fn lemma_verb_rows_hold(
    rows: Seq<Seq<Seq<char>>>,
    tails: Seq<Seq<char>>,
    r: int,
    e: EntryView,
)
    requires
        0 <= r < rows.len(),
        verb_row(rows[r], tails).contains(e),
    ensures
        verb_rows(rows, tails).contains(e),
    decreases rows.len(),
{
    let before = verb_rows(rows.drop_last(), tails);
    let new = verb_row(rows.last(), tails);
    if r < rows.len() - 1 {
        lemma_verb_rows_hold(rows.drop_last(), tails, r, e);
        let w = choose|w: int| 0 <= w < before.len() && before[w] == e;
        assert((before + new)[w] == e);
    } else {
        let w = choose|w: int| 0 <= w < new.len() && new[w] == e;
        assert((before + new)[before.len() + w] == e);
    }
}

/// The verbs of the table are loaded in all their forms.
pub proof fn law_verbs_are_loaded(r: int, e: EntryView)
    requires
        0 <= r < rows_of(tables::GODAN_SU_VERBS@).len(),
        verb_row(rows_of(tables::GODAN_SU_VERBS@)[r], scan::fields_of(tables::SU_TAILS@)).contains(
            e,
        ),
    ensures
        supplement().contains(e),
{
    lemma_supplement_holds();
    lemma_verb_rows_hold(
        rows_of(tables::GODAN_SU_VERBS@),
        scan::fields_of(tables::SU_TAILS@),
        r,
        e,
    );
}

/// A preference of the table counts for the word with its reading and surface, unless a
/// later one does, and lends itself to its family.
pub proof fn law_preferences_come_from_table(r: int, k: int)
    ensures
        ({
            let rows = rows_of(tables::PRIORITY_OVERRIDES@);
            0 <= r < rows.len() && 2 <= k < rows[r].len() ==> (scan::unsigned_of(
                rows[r][0],
                10,
                0xffff_ffff,
            ) matches Some(f) ==> preferences().contains(
                EntryView {
                    reading: rows[r][1],
                    surface: rows[r][k],
                    pos: PartOfSpeech::Other,
                    frequency: f as u32,
                },
            ))
        }),
{
    let rows = rows_of(tables::PRIORITY_OVERRIDES@);
    if 0 <= r < rows.len() && 2 <= k < rows[r].len() {
        law_rows_are_weighted(rows, PartOfSpeech::Other, r, k);
    }
}

/// A row is the fields of a line.
pub proof fn law_lines_are_rows(text: Seq<char>, i: int)
    ensures
        rows_of(text).len() == scan::lines_of(text).len(),
        0 <= i < rows_of(text).len() ==> rows_of(text)[i] == scan::fields_of(
            scan::lines_of(text)[i],
        ),
{
}

proof fn lemma_emoji_rows_hold(rows: Seq<Seq<char>>, r: int, e: EntryView)
    requires
        0 <= r < rows.len(),
        emoji_row(rows[r]).contains(e),
    ensures
        emoji_rows(rows).contains(e),
    decreases rows.len(),
{
    let before = emoji_rows(rows.drop_last());
    let new = emoji_row(rows.last());
    if r < rows.len() - 1 {
        lemma_emoji_rows_hold(rows.drop_last(), r, e);
        let w = choose|w: int| 0 <= w < before.len() && before[w] == e;
        assert((before + new)[w] == e);
    } else {
        let w = choose|w: int| 0 <= w < new.len() && new[w] == e;
        assert((before + new)[before.len() + w] == e);
    }
}

/// Every line of the emoji table is loaded.
pub proof fn law_every_emoji_is_loaded(
    words: Seq<EntryView>,
    emoji: Seq<char>,
    r: int,
    e: EntryView,
)
    requires
        0 <= r < scan::lines_of(emoji).len(),
        emoji_row(scan::lines_of(emoji)[r]).contains(e),
    ensures
        builtin_entries(words, emoji).contains(e),
{
    lemma_emoji_rows_hold(scan::lines_of(emoji), r, e);
    let front = words.map_values(|w: EntryView| corrected(words, preferences(), w)) + supplement();
    lemma_sum_holds(front, emoji_rows(scan::lines_of(emoji)));
}

} // verus!
