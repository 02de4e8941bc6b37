//! The state of a conversion: segments with their candidates, and a focus.
use vstd::prelude::*;

use crate::text::{char_count, chars_of};

verus! {

/// A segment during conversion.
#[derive(Debug)]
pub struct SegmentState {
    /// Reading of this segment in hiragana.
    pub reading: String,
    /// Where it starts in the kana, in characters.
    pub start: usize,
    /// What it can be written as, best first.
    pub candidates: Vec<String>,
    /// Position of the chosen candidate.
    pub selected: usize,
    /// Whether the user chose the candidate.
    pub user_selected: bool,
}

/// The contents of a segment.
#[verifier::ext_equal]
pub struct SegmentStateView {
    pub reading: Seq<char>,
    pub start: int,
    pub candidates: Seq<Seq<char>>,
    pub selected: int,
    pub user_selected: bool,
}

/// The contents of a list of texts.
pub open spec fn texts(v: Seq<String>) -> Seq<Seq<char>> {
    v.map_values(|s: String| s@)
}

impl View for SegmentState {
    type V = SegmentStateView;

    open spec fn view(&self) -> SegmentStateView {
        SegmentStateView {
            reading: self.reading@,
            start: self.start as int,
            candidates: texts(self.candidates@),
            selected: self.selected as int,
            user_selected: self.user_selected,
        }
    }
}

/// The contents of a list of segments.
pub open spec fn state_views(v: Seq<SegmentState>) -> Seq<SegmentStateView> {
    v.map_values(|s: SegmentState| s@)
}

/// A conversion that is going on.
#[derive(Debug)]
pub struct ConversionState {
    /// The kana that is converted.
    pub kana: String,
    /// Its segments.
    pub segments: Vec<SegmentState>,
    /// Position of the focused segment.
    pub focus: usize,
}

/// The contents of a conversion.
#[verifier::ext_equal]
pub struct ConversionView {
    pub kana: Seq<char>,
    pub segments: Seq<SegmentStateView>,
    pub focus: int,
}

impl View for ConversionState {
    type V = ConversionView;

    open spec fn view(&self) -> ConversionView {
        ConversionView {
            kana: self.kana@,
            segments: state_views(self.segments@),
            focus: self.focus as int,
        }
    }
}

/// The text of the chosen candidate.
pub open spec fn chosen(s: SegmentStateView) -> Seq<char> {
    s.candidates[s.selected]
}

/// The chosen candidates, one after the other.
pub open spec fn composed(segs: Seq<SegmentStateView>) -> Seq<char>
    decreases segs.len(),
{
    if segs.len() == 0 {
        Seq::empty()
    } else {
        composed(segs.drop_last()) + chosen(segs.last())
    }
}

/// The readings of the segments, one after the other.
pub open spec fn kana_of(segs: Seq<SegmentStateView>) -> Seq<char>
    decreases segs.len(),
{
    if segs.len() == 0 {
        Seq::empty()
    } else {
        kana_of(segs.drop_last()) + segs.last().reading
    }
}

/// A segment has candidates, one of which is chosen, and a reading.
pub open spec fn segment_ok(s: SegmentStateView) -> bool {
    0 <= s.selected < s.candidates.len() && s.reading.len() >= 1
}

/// Every segment has a chosen candidate.
pub open spec fn all_chosen(segs: Seq<SegmentStateView>) -> bool {
    forall|i: int|
        0 <= i < segs.len() ==> 0 <= (#[trigger] segs[i]).selected < segs[i].candidates.len()
}

/// Each segment starts where the readings before it end.
#[verifier::opaque]
pub open spec fn starts_fit(segs: Seq<SegmentStateView>) -> bool {
    forall|i: int|
        0 <= i < segs.len() ==> (#[trigger] segs[i]).start == kana_of(segs.take(i)).len()
}

/// What holds of every conversion: there is a focused segment, every segment
/// has a chosen candidate, and the segments spell out the kana.
pub open spec fn conversion_ok(v: ConversionView) -> bool {
    &&& 0 <= v.focus < v.segments.len()
    &&& forall|i: int| 0 <= i < v.segments.len() ==> segment_ok(#[trigger] v.segments[i])
    &&& kana_of(v.segments) == v.kana
    &&& starts_fit(v.segments)
}

/// One step right or left in a circle of `n` places.
pub open spec fn stepped(at: int, n: int, right: bool) -> int {
    if right {
        if at + 1 >= n {
            0
        } else {
            at + 1
        }
    } else if at == 0 {
        n - 1
    } else {
        at - 1
    }
}

/// The conversion with the focus moved by one segment, around the ends.
pub open spec fn focus_moved(v: ConversionView, delta: int) -> ConversionView {
    ConversionView { focus: stepped(v.focus, v.segments.len() as int, delta > 0), ..v }
}

/// The conversion with the next or previous candidate of the focused segment
/// chosen, around the ends.
pub open spec fn candidate_cycled(v: ConversionView, delta: int) -> ConversionView {
    let s = v.segments[v.focus];
    ConversionView {
        segments: v.segments.update(
            v.focus,
            SegmentStateView {
                selected: stepped(s.selected, s.candidates.len() as int, delta > 0),
                user_selected: true,
                ..s
            },
        ),
        ..v
    }
}

/// Position of the first text equal to `t`, or the number of texts.
pub open spec fn position_of(list: Seq<Seq<char>>, t: Seq<char>) -> int
    decreases list.len(),
{
    if list.len() == 0 {
        0
    } else {
        let before = position_of(list.drop_last(), t);
        if before < list.len() - 1 {
            before
        } else if list.last() == t {
            list.len() - 1
        } else {
            list.len() as int
        }
    }
}

/// The segment with `t` chosen by the user, as a new candidate if need be.
pub open spec fn text_chosen(s: SegmentStateView, t: Seq<char>) -> SegmentStateView {
    let at = position_of(s.candidates, t);
    SegmentStateView {
        candidates: if at < s.candidates.len() {
            s.candidates
        } else {
            s.candidates.push(t)
        },
        selected: at,
        user_selected: true,
        ..s
    }
}

/// The conversion with `t` chosen for the focused segment.
pub open spec fn focus_text_chosen(v: ConversionView, t: Seq<char>) -> ConversionView {
    ConversionView { segments: v.segments.update(v.focus, text_chosen(v.segments[v.focus], t)), ..v }
}

/// The position is that of the first occurrence, or the length where there is
/// none.
pub proof fn lemma_position_of(list: Seq<Seq<char>>, t: Seq<char>)
    ensures
        0 <= position_of(list, t) <= list.len(),
        position_of(list, t) < list.len() ==> list[position_of(list, t)] == t,
        position_of(list, t) == list.len() <==> !list.contains(t),
        forall|i: int| 0 <= i < position_of(list, t) ==> #[trigger] list[i] != t,
    decreases list.len(),
{
    if list.len() > 0 {
        let rest = list.drop_last();
        lemma_position_of(rest, t);
        let at = position_of(list, t);
        if rest.contains(t) {
            let w = choose|w: int| 0 <= w < rest.len() && rest[w] == t;
            assert(list[w] == t);
            assert(at < rest.len());
            assert(list[at] == rest[at]);
        } else if list.last() == t {
            assert(list[list.len() - 1] == t);
        } else {
            assert(!list.contains(t)) by {
                if list.contains(t) {
                    let w = choose|w: int| 0 <= w < list.len() && list[w] == t;
                    assert(rest[w] == t);
                }
            }
        }
        assert forall|i: int| 0 <= i < at implies #[trigger] list[i] != t by {
            if i < rest.len() {
                assert(list[i] == rest[i]);
                if rest[i] == t {
                    assert(rest.contains(t));
                }
            }
        }
    }
}

/// Position of the first text equal to `t`, or the number of texts.
pub fn find_text(list: &Vec<String>, t: &String) -> (at: usize)
    ensures
        at == position_of(texts(list@), t@),
        at <= list@.len(),
{
    let ghost all = texts(list@);
    let mut i: usize = 0;
    while i < list.len()
        invariant
            i <= list@.len(),
            all == texts(list@),
            position_of(all.take(i as int), t@) == i,
        decreases list@.len() - i,
    {
        proof {
            assert(all.take(i + 1).drop_last() =~= all.take(i as int));
            assert(all.take(i + 1).last() == list@[i as int]@);
        }
        if list[i] == *t {
            proof {
                lemma_position_prefix(all, t@, i + 1);
            }
            return i;
        }
        i = i + 1;
    }
    assert(all.take(i as int) =~= all);
    i
}

proof fn lemma_position_prefix(list: Seq<Seq<char>>, t: Seq<char>, n: int)
    requires
        0 <= n <= list.len(),
        position_of(list.take(n), t) < n,
    ensures
        position_of(list, t) == position_of(list.take(n), t),
    decreases list.len() - n,
{
    if n < list.len() {
        assert(list.take(n + 1).drop_last() =~= list.take(n));
        lemma_position_prefix(list, t, n + 1);
    } else {
        assert(list.take(n) =~= list);
    }
}

/// A form in which kana can be shown.
#[derive(Clone, Copy, Debug, PartialEq, Eq, Structural)]
pub enum KanaForm {
    Hiragana,
    Katakana,
    HalfwidthKatakana,
    FullwidthRomaji,
    Romaji,
}

/// A reading in each of its forms but hiragana, in which it is itself.
pub struct KanaForms {
    pub katakana: String,
    pub halfwidth_katakana: String,
    pub romaji: String,
    pub fullwidth_romaji: String,
}

/// The text of one form of a reading.
pub open spec fn form_text(f: KanaForm, reading: Seq<char>, forms: KanaForms) -> Seq<char> {
    match f {
        KanaForm::Hiragana => reading,
        KanaForm::Katakana => forms.katakana@,
        KanaForm::HalfwidthKatakana => forms.halfwidth_katakana@,
        KanaForm::FullwidthRomaji => forms.fullwidth_romaji@,
        KanaForm::Romaji => forms.romaji@,
    }
}

/// The forms of a reading in the order in which they are offered.
pub open spec fn form_list(reading: Seq<char>, forms: KanaForms) -> Seq<Seq<char>> {
    seq![
        reading,
        forms.katakana@,
        forms.halfwidth_katakana@,
        forms.romaji@,
        forms.fullwidth_romaji@,
    ]
}

/// The texts without repetitions, first occurrences in order.
pub open spec fn distinct(list: Seq<Seq<char>>) -> Seq<Seq<char>>
    decreases list.len(),
{
    if list.len() == 0 {
        Seq::empty()
    } else {
        let before = distinct(list.drop_last());
        if before.contains(list.last()) {
            before
        } else {
            before.push(list.last())
        }
    }
}

/// The conversion of all the kana as one segment, with its forms as candidates
/// and form number `form` chosen (the first one if there is no such form).
pub open spec fn kana_conversion(kana: Seq<char>, forms: KanaForms, form: int) -> ConversionView {
    let list = form_list(kana, forms);
    let wanted = if 0 <= form < 5 {
        list[form]
    } else {
        list[0]
    };
    ConversionView {
        kana,
        segments: seq![
            SegmentStateView {
                reading: kana,
                start: 0,
                candidates: distinct(list),
                selected: position_of(distinct(list), wanted),
                user_selected: form != 0,
            },
        ],
        focus: 0,
    }
}

/// Leaving out repetitions loses no text and keeps none twice.
pub proof fn lemma_distinct(list: Seq<Seq<char>>)
    ensures
        forall|t: Seq<char>| #[trigger] distinct(list).contains(t) <==> list.contains(t),
        forall|i: int, j: int|
            0 <= i < j < distinct(list).len() ==> #[trigger] distinct(list)[i]
                != #[trigger] distinct(list)[j],
    decreases list.len(),
{
    if list.len() > 0 {
        let rest = list.drop_last();
        let before = distinct(rest);
        let out = distinct(list);
        lemma_distinct(rest);
        assert forall|i: int, j: int| 0 <= i < j < out.len() implies #[trigger] out[i]
            != #[trigger] out[j] by {
            assert(out[i] == before[i]);
            if j < before.len() {
                assert(out[j] == before[j]);
            } else {
                assert(before.contains(before[i]));
            }
        }
        assert forall|t: Seq<char>| #[trigger] out.contains(t) <==> list.contains(t) by {
            if list.contains(t) {
                let w = choose|w: int| 0 <= w < list.len() && list[w] == t;
                if w < rest.len() {
                    assert(rest[w] == t);
                    assert(rest.contains(t));
                    assert(before.contains(t));
                    let v = choose|v: int| 0 <= v < before.len() && before[v] == t;
                    assert(out[v] == t);
                } else if !before.contains(t) {
                    assert(out[out.len() - 1] == t);
                }
            }
            if out.contains(t) {
                let w = choose|w: int| 0 <= w < out.len() && out[w] == t;
                if w < before.len() {
                    assert(before[w] == t);
                    assert(before.contains(t));
                    assert(rest.contains(t));
                    let v = choose|v: int| 0 <= v < rest.len() && rest[v] == t;
                    assert(list[v] == t);
                } else {
                    assert(list[list.len() - 1] == t);
                }
            }
        }
    }
}

impl KanaForm {
    /// The text of a reading in this form: in hiragana the reading itself.
    pub fn apply(self, reading: &str, forms: &KanaForms) -> (out: String)
        ensures
            out@ == form_text(self, reading@, *forms),
            self == KanaForm::Hiragana ==> out@ == reading@,
    {
        match self {
            KanaForm::Hiragana => reading.to_owned(),
            KanaForm::Katakana => forms.katakana.clone(),
            KanaForm::HalfwidthKatakana => forms.halfwidth_katakana.clone(),
            KanaForm::FullwidthRomaji => forms.fullwidth_romaji.clone(),
            KanaForm::Romaji => forms.romaji.clone(),
        }
    }
}

/// Where the chosen candidate of segment `i` lies in the composed text.
pub open spec fn range_at(segs: Seq<SegmentStateView>, i: int) -> (int, int) {
    (composed(segs.take(i)).len() as int, composed(segs.take(i + 1)).len() as int)
}

impl ConversionState {
    /// The conversion of all the kana as one segment, shown in one of its
    /// forms: hiragana, katakana, half-width katakana, romaji or full-width
    /// romaji, numbered from 0.
    pub fn of_kana_forms(kana: &str, forms: &KanaForms, form: usize) -> (state: ConversionState)
        requires
            kana@.len() > 0,
        ensures
            state@ == kana_conversion(kana@, *forms, form as int),
            conversion_ok(state@),
    {
        let mut list: Vec<String> = Vec::new();
        list.push(kana.to_owned());
        list.push(forms.katakana.clone());
        list.push(forms.halfwidth_katakana.clone());
        list.push(forms.romaji.clone());
        list.push(forms.fullwidth_romaji.clone());
        let ghost all = form_list(kana@, *forms);
        assert(texts(list@) =~= all);
        let mut candidates: Vec<String> = Vec::new();
        let mut i: usize = 0;
        assert(texts(candidates@) =~= distinct(all.take(0)));
        while i < list.len()
            invariant
                i <= list@.len(),
                texts(list@) == all,
                texts(candidates@) == distinct(all.take(i as int)),
            decreases list@.len() - i,
        {
            let ghost before = candidates@;
            proof {
                assert(all[i as int] == list@[i as int]@);
                assert(all.take(i + 1).drop_last() =~= all.take(i as int));
                assert(all.take(i + 1).last() == all[i as int]);
                lemma_position_of(texts(candidates@), all[i as int]);
            }
            if find_text(&candidates, &list[i]) == candidates.len() {
                candidates.push(list[i].clone());
                assert(texts(candidates@) =~= texts(before).push(all[i as int]));
            }
            i = i + 1;
        }
        assert(all.take(i as int) =~= all);
        let at: usize = if form < 5 {
            form
        } else {
            0
        };
        let selected: usize = find_text(&candidates, &list[at]);
        let ghost wanted = all[at as int];
        let reading: String = kana.to_owned();
        let segment: SegmentState = SegmentState {
            reading,
            start: 0,
            candidates,
            selected,
            user_selected: form != 0,
        };
        let ghost sv = segment@;
        let mut segments: Vec<SegmentState> = Vec::new();
        segments.push(segment);
        let state: ConversionState = ConversionState { kana: kana.to_owned(), segments, focus: 0 };
        proof {
            assert(wanted == list@[at as int]@);
            lemma_distinct(all);
            assert(all.contains(wanted));
            assert(distinct(all).contains(wanted));
            lemma_position_of(distinct(all), wanted);
            assert(state@.segments =~= seq![sv]);
            assert(state@ == kana_conversion(kana@, *forms, form as int));
            let segs = state@.segments;
            assert(segs.drop_last() =~= Seq::empty());
            reveal_with_fuel(kana_of, 2);
            reveal(starts_fit);
            assert(kana_of(segs) =~= kana@);
            assert(segs.take(0) =~= Seq::empty());
            assert(starts_fit(segs));
        }
        state
    }

    /// The chosen candidates, one after the other.
    pub fn composed_text(&self) -> (out: String)
        requires
            all_chosen(self@.segments),
        ensures
            out@ == composed(self@.segments),
    {
        let ghost segs = self@.segments;
        let mut out: String = String::new();
        let mut i: usize = 0;
        assert(segs.take(0) =~= Seq::empty());
        while i < self.segments.len()
            invariant
                i <= self.segments@.len(),
                segs == self@.segments,
                all_chosen(segs),
                out@ == composed(segs.take(i as int)),
            decreases self.segments@.len() - i,
        {
            proof {
                assert(segs[i as int] == self.segments@[i as int]@);
                assert(segs.take(i + 1).drop_last() =~= segs.take(i as int));
                assert(segs.take(i + 1).last() == segs[i as int]);
            }
            let s: &SegmentState = &self.segments[i];
            out.append(s.candidates[s.selected].as_str());
            i = i + 1;
        }
        assert(segs.take(i as int) =~= segs);
        out
    }

    /// Where the chosen candidate of each segment lies in the composed text,
    /// in characters: its start and its end.
    pub fn segment_char_ranges(&self) -> (ranges: Vec<(usize, usize)>)
        requires
            all_chosen(self@.segments),
        ensures
            ranges@.len() == self@.segments.len(),
            forall|i: int|
                0 <= i < ranges@.len() ==> ((#[trigger] ranges@[i]).0 as int, ranges@[i].1 as int)
                    == range_at(self@.segments, i),
    {
        let ghost segs = self@.segments;
        let whole: String = self.composed_text();
        let total: usize = char_count(whole.as_str());
        let mut ranges: Vec<(usize, usize)> = Vec::new();
        let mut at: usize = 0;
        let mut i: usize = 0;
        assert(segs.take(0) =~= Seq::empty());
        while i < self.segments.len()
            invariant
                i <= self.segments@.len(),
                segs == self@.segments,
                all_chosen(segs),
                total == composed(segs).len(),
                at == composed(segs.take(i as int)).len(),
                ranges@.len() == i,
                forall|k: int|
                    0 <= k < i ==> ((#[trigger] ranges@[k]).0 as int, ranges@[k].1 as int)
                        == range_at(segs, k),
            decreases self.segments@.len() - i,
        {
            proof {
                assert(segs[i as int] == self.segments@[i as int]@);
                assert(segs.take(i + 1).drop_last() =~= segs.take(i as int));
                assert(segs.take(i + 1).last() == segs[i as int]);
                lemma_composed_grows(segs, i + 1);
            }
            let s: &SegmentState = &self.segments[i];
            let len: usize = char_count(s.candidates[s.selected].as_str());
            ranges.push((at, at + len));
            at = at + len;
            i = i + 1;
        }
        ranges
    }

    /// Moves the focus to the next segment (`delta` above 0) or to the previous
    /// one, around the ends.
    pub fn move_focus(&mut self, delta: i32)
        requires
            conversion_ok(old(self)@),
        ensures
            final(self)@ == focus_moved(old(self)@, delta as int),
            conversion_ok(final(self)@),
    {
        let n: usize = self.segments.len();
        if delta > 0 {
            self.focus = if n - self.focus <= 1 {
                0
            } else {
                self.focus + 1
            };
        } else if self.focus == 0 {
            self.focus = n - 1;
        } else {
            self.focus = self.focus - 1;
        }
    }

    /// Chooses the next candidate of the focused segment (`delta` above 0) or
    /// the previous one, around the ends.
    pub fn cycle_candidate(&mut self, delta: i32)
        requires
            conversion_ok(old(self)@),
        ensures
            final(self)@ == candidate_cycled(old(self)@, delta as int),
            conversion_ok(final(self)@),
    {
        let ghost before = self@;
        let at: usize = self.focus;
        proof {
            assert(before.segments[at as int] == self.segments@[at as int]@);
            assert(segment_ok(before.segments[at as int]));
        }
        let n: usize = self.segments[at].candidates.len();
        let cur: usize = self.segments[at].selected;
        let next: usize = if delta > 0 {
            if n - cur <= 1 {
                0
            } else {
                cur + 1
            }
        } else if cur == 0 {
            n - 1
        } else {
            cur - 1
        };
        let seg = &mut self.segments[at];
        seg.selected = next;
        seg.user_selected = true;
        proof {
            assert(self@.segments =~= candidate_cycled(before, delta as int).segments);
            lemma_same_readings(before.segments, self@.segments);
        }
    }

    /// Chooses `text` for the focused segment. It becomes a new candidate if
    /// the segment does not have it yet.
    pub fn choose_text(&mut self, text: String)
        requires
            conversion_ok(old(self)@),
        ensures
            final(self)@ == focus_text_chosen(old(self)@, text@),
            conversion_ok(final(self)@),
    {
        let ghost before = self@;
        let ghost t = text@;
        let at: usize = self.focus;
        let ghost s = before.segments[at as int];
        proof {
            assert(s == self.segments@[at as int]@);
            assert(segment_ok(s));
            lemma_position_of(s.candidates, t);
        }
        let found: usize = find_text(&self.segments[at].candidates, &text);
        let seg = &mut self.segments[at];
        if found == seg.candidates.len() {
            seg.candidates.push(text);
        }
        seg.selected = found;
        seg.user_selected = true;
        proof {
            let now = self.segments@[at as int]@;
            assert(now.candidates =~= text_chosen(s, t).candidates);
            assert(self@.segments =~= focus_text_chosen(before, t).segments);
            lemma_same_readings(before.segments, self@.segments);
        }
    }
}

proof fn lemma_composed_grows(segs: Seq<SegmentStateView>, n: int)
    requires
        0 <= n <= segs.len(),
    ensures
        composed(segs.take(n)).len() <= composed(segs).len(),
    decreases segs.len() - n,
{
    if n < segs.len() {
        assert(segs.take(n + 1).drop_last() =~= segs.take(n));
        lemma_composed_grows(segs, n + 1);
    } else {
        assert(segs.take(n) =~= segs);
    }
}

/// Segments with the same readings spell out the same kana.
pub proof fn lemma_same_kana(a: Seq<SegmentStateView>, b: Seq<SegmentStateView>)
    requires
        a.len() == b.len(),
        forall|i: int| 0 <= i < a.len() ==> (#[trigger] a[i]).reading == b[i].reading,
    ensures
        kana_of(a) == kana_of(b),
    decreases a.len(),
{
    if a.len() > 0 {
        let x = a.drop_last();
        let y = b.drop_last();
        assert forall|i: int| 0 <= i < x.len() implies (#[trigger] x[i]).reading == y[i].reading by {
            assert(x[i] == a[i] && y[i] == b[i]);
        }
        lemma_same_kana(x, y);
        assert(a[a.len() - 1].reading == b[a.len() - 1].reading);
    }
}

/// Changing candidates and choices keeps the segmentation intact.
pub proof fn lemma_same_readings(a: Seq<SegmentStateView>, b: Seq<SegmentStateView>)
    requires
        a.len() == b.len(),
        forall|i: int|
            0 <= i < a.len() ==> (#[trigger] a[i]).reading == b[i].reading && a[i].start
                == b[i].start,
        starts_fit(a),
    ensures
        kana_of(a) == kana_of(b),
        starts_fit(b),
{
    reveal(starts_fit);
    lemma_same_kana(a, b);
    assert forall|i: int| 0 <= i < b.len() implies (#[trigger] b[i]).start == kana_of(
        b.take(i),
    ).len() by {
        let x = a.take(i);
        let y = b.take(i);
        assert forall|k: int| 0 <= k < x.len() implies (#[trigger] x[k]).reading == y[k].reading by {
            assert(x[k] == a[k] && y[k] == b[k]);
        }
        lemma_same_kana(x, y);
        assert(a[i].start == b[i].start);
    }
}

/// The ranges of the segments cover the composed text: the first starts at 0,
/// each starts where the one before ends, the last ends with the text, and in
/// between lies the chosen candidate.
pub proof fn law_ranges_cover_text(v: ConversionView, i: int)
    requires
        0 <= i < v.segments.len(),
    ensures
        range_at(v.segments, 0).0 == 0,
        i + 1 < v.segments.len() ==> range_at(v.segments, i).1 == range_at(v.segments, i + 1).0,
        range_at(v.segments, v.segments.len() - 1).1 == composed(v.segments).len(),
        0 <= range_at(v.segments, i).0 <= range_at(v.segments, i).1 <= composed(
            v.segments,
        ).len(),
        composed(v.segments).subrange(range_at(v.segments, i).0, range_at(v.segments, i).1)
            == chosen(v.segments[i]),
{
    let segs = v.segments;
    assert(segs.take(0) =~= Seq::empty());
    assert(segs.take(segs.len() as int) =~= segs);
    lemma_composed_part(segs, i, segs.len() as int);
    lemma_composed_grows(segs, i + 1);
    assert(segs.take(i + 1).drop_last() =~= segs.take(i));
}

proof fn lemma_composed_part(segs: Seq<SegmentStateView>, i: int, n: int)
    requires
        0 <= i < n <= segs.len(),
    ensures
        composed(segs.take(i)).len() + chosen(segs[i]).len() <= composed(segs.take(n)).len(),
        composed(segs.take(n)).subrange(
            composed(segs.take(i)).len() as int,
            (composed(segs.take(i)).len() + chosen(segs[i]).len()) as int,
        ) == chosen(segs[i]),
    decreases n,
{
    let text = composed(segs.take(n));
    let from = composed(segs.take(i)).len() as int;
    let len = chosen(segs[i]).len() as int;
    assert(segs.take(n).drop_last() =~= segs.take(n - 1));
    assert(segs.take(n).last() == segs[n - 1]);
    if i == n - 1 {
        assert(text.subrange(from, from + len) =~= chosen(segs[i]));
    } else {
        lemma_composed_part(segs, i, n - 1);
        assert(text.subrange(from, from + len) =~= composed(segs.take(n - 1)).subrange(
            from,
            from + len,
        ));
    }
}

/// Moving the focus right and then left, or left and then right, gives back
/// the conversion.
pub proof fn law_focus_moves_back(v: ConversionView, delta: int)
    requires
        conversion_ok(v),
        delta != 0,
    ensures
        focus_moved(focus_moved(v, delta), -delta) == v,
{
}

/// Going to the next candidate and back chooses the same candidate again; the
/// composed text is what it was.
pub proof fn law_candidate_cycles_back(v: ConversionView, delta: int)
    requires
        conversion_ok(v),
        delta != 0,
    ensures
        candidate_cycled(candidate_cycled(v, delta), -delta).segments[v.focus].selected
            == v.segments[v.focus].selected,
        composed(candidate_cycled(candidate_cycled(v, delta), -delta).segments) == composed(
            v.segments,
        ),
{
    let f = v.focus;
    let s = v.segments[f];
    let n = s.candidates.len() as int;
    assert(segment_ok(s));
    let m = candidate_cycled(v, delta);
    let w = candidate_cycled(m, -delta);
    assert(m.segments[f].candidates == s.candidates);
    assert(m.segments[f].selected == stepped(s.selected, n, delta > 0));
    assert(w.segments[f].candidates == s.candidates);
    assert(w.segments[f].selected == s.selected);
    assert forall|i: int| 0 <= i < v.segments.len() implies chosen(#[trigger] w.segments[i])
        == chosen(v.segments[i]) by {
        if i != f {
            assert(m.segments[i] == v.segments[i]);
            assert(w.segments[i] == m.segments[i]);
        }
    }
    lemma_same_composed(v.segments, w.segments);
}

proof fn lemma_same_composed(a: Seq<SegmentStateView>, b: Seq<SegmentStateView>)
    requires
        a.len() == b.len(),
        forall|i: int| 0 <= i < a.len() ==> chosen(#[trigger] b[i]) == chosen(a[i]),
    ensures
        composed(b) == composed(a),
    decreases a.len(),
{
    if a.len() > 0 {
        let x = a.drop_last();
        let y = b.drop_last();
        assert forall|i: int| 0 <= i < x.len() implies chosen(#[trigger] y[i]) == chosen(x[i]) by {
            assert(y[i] == b[i] && x[i] == a[i]);
        }
        lemma_same_composed(x, y);
        assert(chosen(b[b.len() - 1]) == chosen(a[a.len() - 1]));
    }
}

/// A conversion into kana forms offers each form once, the reading first, and
/// shows the one with the given number.
pub proof fn law_forms_are_offered(kana: Seq<char>, forms: KanaForms, form: int)
    requires
        0 <= form < 5,
    ensures
        ({
            let c = kana_conversion(kana, forms, form);
            let s = c.segments[0];
            &&& c.kana == kana && c.focus == 0 && c.segments.len() == 1
            &&& s.reading == kana && s.start == 0 && s.user_selected == (form != 0)
            &&& s.candidates.no_duplicates()
            &&& s.candidates.len() > 0 && s.candidates[0] == kana
            &&& forall|t: Seq<char>| #[trigger]
                s.candidates.contains(t) <==> (t == kana || t == forms.katakana@ || t
                    == forms.halfwidth_katakana@ || t == forms.romaji@ || t
                    == forms.fullwidth_romaji@)
            &&& 0 <= s.selected < s.candidates.len()
            &&& s.candidates[s.selected] == (if form == 0 {
                kana
            } else if form == 1 {
                forms.katakana@
            } else if form == 2 {
                forms.halfwidth_katakana@
            } else if form == 3 {
                forms.romaji@
            } else {
                forms.fullwidth_romaji@
            })
        }),
{
    let list = form_list(kana, forms);
    let all = distinct(list);
    lemma_distinct(list);
    assert(list.contains(list[form]));
    assert(all.contains(list[form]));
    lemma_position_of(all, list[form]);
    assert(list[0] == kana && list[1] == forms.katakana@ && list[2] == forms.halfwidth_katakana@
        && list[3] == forms.romaji@ && list[4] == forms.fullwidth_romaji@);
    lemma_distinct_head(list);
    assert forall|t: Seq<char>| #[trigger] all.contains(t) <==> (t == kana || t == forms.katakana@
        || t == forms.halfwidth_katakana@ || t == forms.romaji@ || t == forms.fullwidth_romaji@) by {
        assert(all.contains(t) <==> list.contains(t));
        assert(list.contains(list[0]) && list.contains(list[1]) && list.contains(list[2])
            && list.contains(list[3]) && list.contains(list[4]));
    }
}

/// The first of several distinct texts stays first.
pub proof fn lemma_distinct_head(list: Seq<Seq<char>>)
    requires
        list.len() > 0,
    ensures
        distinct(list).len() > 0,
        distinct(list)[0] == list[0],
    decreases list.len(),
{
    if list.len() > 1 {
        lemma_distinct_head(list.drop_last());
    } else {
        assert(list.drop_last() =~= Seq::empty());
        assert(distinct(list.drop_last()) =~= Seq::<Seq<char>>::empty());
    }
}

/// The text of a conversion is made of the chosen candidates of its segments, in
/// order.
pub proof fn law_text_is_what_was_chosen(segs: Seq<SegmentStateView>, next: SegmentStateView)
    ensures
        composed(Seq::<SegmentStateView>::empty()).len() == 0,
        composed(segs.push(next)) == composed(segs) + next.candidates[next.selected],
{
    assert(segs.push(next).drop_last() =~= segs);
}

/// The kana of a conversion is made of the readings of its segments, in order.
pub proof fn law_kana_is_what_is_read(segs: Seq<SegmentStateView>, next: SegmentStateView)
    ensures
        kana_of(Seq::<SegmentStateView>::empty()).len() == 0,
        kana_of(segs.push(next)) == kana_of(segs) + next.reading,
{
    assert(segs.push(next).drop_last() =~= segs);
}

} // verus!
