use bonolith::builtin::{collect_verb_stems, is_kata_dominant, surface_contains_kanji};
use bonolith::dictionary::{Dictionary, StoreFailed, StoreReply};
use bonolith::entry::{DictionaryEntry, Segment};
use bonolith::nano::NanoTable;
use bonolith::pos::{connection_cost, pos_to_str, str_to_pos, PartOfSpeech};
use bonolith::pos::PartOfSpeech::{
    Adjective, Adverb, Auxiliary, Noun, Particle, Prefix, Suffix, Verb,
};
use bonolith::user_scorer::UserScorer;

/// Natural logarithms, in billionths.
fn logs() -> NanoTable {
    let mut table = NanoTable::new();
    for arg in 1..=20000u32 {
        assert!(table.push(arg, ((arg as f64).ln() * 1e9).round() as i64));
    }
    table
}

/// What so many selections are worth, in billionths.
fn score_table() -> NanoTable {
    let mut table = NanoTable::new();
    for count in 1..=20u32 {
        let score = (count as f64).ln_1p() / 20f64.ln_1p();
        assert!(table.push(count, (score * 1e9).round() as i64));
    }
    table
}

fn word(reading: &str, surface: &str, pos: PartOfSpeech, frequency: u32) -> DictionaryEntry {
    DictionaryEntry { reading: reading.to_string(), surface: surface.to_string(), pos, frequency }
}

/// Rows of the emoji list.
const EMOJI: &str = "えがお\t😊\nねこ\t🐱\nくらっかー\t🎉\n";

/// Words with the frequencies that a large dictionary gives them.
fn words() -> Vec<DictionaryEntry> {
    vec![
        word("きょう", "今日", Noun, 6500),
        word("きょう", "京", Noun, 3000),
        word("きょうと", "京都", Noun, 5000),
        word("き", "気", Noun, 5000),
        word("き", "木", Noun, 4200),
        word("は", "は", Particle, 9800),
        word("は", "刃", Noun, 3000),
        word("を", "を", Particle, 9800),
        word("が", "が", Particle, 9800),
        word("に", "に", Particle, 9800),
        word("の", "の", Particle, 9800),
        word("て", "て", Particle, 8000),
        word("と", "と", Particle, 9500),
        word("いい", "いい", Adjective, 7000),
        word("てんき", "天気", Noun, 5500),
        word("です", "です", Auxiliary, 9000),
        word("もの", "物", Noun, 3248),
        word("もの", "モノ", Noun, 3302),
        word("こと", "事", Noun, 1188),
        word("こと", "コト", Noun, 2795),
        word("とき", "時", Noun, 3000),
        word("とき", "トキ", Noun, 3100),
        word("あめ", "雨", Noun, 5200),
        word("あめ", "飴", Noun, 4100),
        word("てき", "的", Suffix, 7408),
        word("てき", "敵", Noun, 5474),
        word("たたく", "叩く", Verb, 5000),
        word("がき", "書き", Suffix, 3000),
        word("がき", "餓鬼", Noun, 4353),
        word("した", "下", Noun, 5000),
        word("さぼった", "サボった", Verb, 5000),
        word("せいじ", "政治", Noun, 5300),
        word("か", "か", Particle, 7424),
        word("か", "化", Suffix, 5054),
        word("か", "家", Suffix, 3500),
        word("さい", "際", Noun, 4950),
        word("さい", "再", Prefix, 4213),
        word("かくにん", "確認", Noun, 5200),
        word("すぐ", "直ぐ", Adverb, 5000),
        word("とうきょう", "東京", Noun, 6000),
        word("いく", "行く", Verb, 6500),
        word("あと", "後", Noun, 5000),
        word("あと", "跡", Noun, 4000),
        word("つくった", "ツクった", Verb, 14500),
        word("つくった", "作った", Verb, 9000),
        word("けん", "件", Noun, 5000),
        word("けんさく", "検索", Noun, 5100),
        word("さく", "柵", Noun, 4800),
        word("に", "二", Noun, 3000),
    ]
}

fn dictionary() -> Dictionary {
    Dictionary::new(&words(), EMOJI, logs())
}

fn readings(segs: &[Segment]) -> Vec<&str> {
    segs.iter().map(|s| s.reading.as_str()).collect()
}

fn top(seg: &Segment) -> Option<&str> {
    seg.candidates.first().map(|e| e.surface.as_str())
}

#[test]
fn builtin_dictionary_loads() {
    let dict = dictionary();
    assert!(dict.len() > 100);
}

#[test]
fn lookup_common_words() {
    let dict = dictionary();
    let results = dict.lookup("きょう");
    assert!(!results.is_empty());
    assert_eq!(results[0].surface, "今日");
}

#[test]
fn value_and_counter_compounds_short_circuit_dp() {
    let dict = dictionary();
    for &(reading, expected_top) in &[
        ("きたいち", "期待値"),
        ("へいきんち", "平均値"),
        ("さいだいち", "最大値"),
        ("しきべつし", "識別子"),
        ("けんだけ", "件だけ"),
        ("にんだけ", "人だけ"),
    ] {
        let segs = dict.segment(reading);
        assert_eq!(readings(&segs), vec![reading], "{reading} should merge to one seg");
        assert_eq!(top(&segs[0]), Some(expected_top), "{reading} top mismatch");
    }
}

#[test]
fn counter_plus_ka_is_particle_not_suffix() {
    let dict = dictionary();
    for &(reading, expected_top) in &[
        ("なんかいか", "何回か"),
        ("なんにんか", "何人か"),
        ("なんじかんか", "何時間か"),
        ("いくつか", "いくつか"),
    ] {
        let segs = dict.segment(reading);
        assert_eq!(readings(&segs), vec![reading], "{reading} should merge into one seg");
        assert_eq!(top(&segs[0]), Some(expected_top), "{reading} top mismatch");
    }
}

#[test]
fn common_noun_kata_capped_below_kanji() {
    let dict = dictionary();
    for &(reading, wrong_kata_top) in &[("もの", "モノ"), ("こと", "コト"), ("とき", "トキ")] {
        let top = dict.lookup(reading).first().map(|e| e.surface.to_string());
        assert!(top.is_some());
        assert_ne!(top.as_deref(), Some(wrong_kata_top), "{reading}: {wrong_kata_top} should not top");
    }
}

#[test]
fn desushi_stays_hiragana_conjunction() {
    let dict = dictionary();
    for &(reading, expected_top) in &[
        ("ですし", "ですし"),
        ("ですしね", "ですしね"),
        ("ですしよ", "ですしよ"),
        ("ですしよね", "ですしよね"),
        ("だしね", "だしね"),
        ("だしよ", "だしよ"),
    ] {
        let segs = dict.segment(reading);
        assert_eq!(readings(&segs), vec![reading], "{reading} should stay one segment");
        assert_eq!(top(&segs[0]), Some(expected_top), "{reading} top mismatch");
    }
    let segs = dict.segment("だし");
    assert_ne!(top(&segs[0]), Some("だし"), "だし alone must not top as hiragana");
}

#[test]
fn godan_su_verb_survives_learned_split_boost() {
    let dict = dictionary();
    for &(reading, stem, kanji, expected) in &[
        ("はなして", "はなし", "話", "話して"),
        ("はなした", "はなし", "話", "話した"),
        ("だして", "だし", "出し", "出して"),
        ("さがして", "さがし", "探し", "探して"),
    ] {
        let mut scorer = UserScorer::new(score_table());
        scorer.load_score(stem, kanji, 3);
        let segs = dict.segment_with_boost(reading, &scorer);
        assert_eq!(segs.len(), 1, "{reading} should stay a single segment");
        assert_eq!(top(&segs[0]), Some(expected));
    }
}

#[test]
fn canonical_katakana_verb_stays_on_top() {
    let list = vec![
        word("さぼった", "サボった", Verb, 5000),
        word("さぼって", "サボって", Verb, 5000),
        word("だぶった", "ダブった", Verb, 5000),
    ];
    let dict = Dictionary::new(&list, "", logs());
    for &(reading, expected) in &[
        ("さぼった", "サボった"),
        ("さぼって", "サボって"),
        ("だぶった", "ダブった"),
    ] {
        let top = dict.lookup(reading).first().map(|e| e.surface.to_string());
        assert_eq!(top.as_deref(), Some(expected), "{expected} should top {reading}");
    }
}

/// The emphatic spelling of a verb form: its stem in katakana.
fn in_katakana(reading: &str, surface: &str) -> String {
    let ending: String = surface.chars().skip(1).collect();
    let stem = reading.strip_suffix(ending.as_str()).unwrap();
    let shifted: String = stem
        .chars()
        .map(|c| char::from_u32(c as u32 + 0x60).unwrap())
        .collect();
    format!("{shifted}{ending}")
}

#[test]
fn verb_inflection_prefers_kanji_over_katakana() {
    let cases: &[(&str, &str)] = &[
        ("つくった", "作った"),
        ("つくって", "作って"),
        ("つくっている", "作っている"),
        ("つくっています", "作っています"),
        ("つくります", "作ります"),
        ("つくりました", "作りました"),
        ("つくられる", "作られる"),
        ("さがした", "探した"),
        ("さがして", "探して"),
        ("さがしている", "探している"),
        ("さがします", "探します"),
        ("およいだ", "泳いだ"),
        ("およいで", "泳いで"),
        ("およぎます", "泳ぎます"),
        ("とじた", "閉じた"),
        ("とじて", "閉じて"),
        ("とじます", "閉じます"),
        ("いのった", "祈った"),
        ("いのって", "祈って"),
        ("いのります", "祈ります"),
    ];
    let mut list = Vec::new();
    for &(reading, expected) in cases {
        list.push(word(reading, &in_katakana(reading, expected), Verb, 14500));
        list.push(word(reading, expected, Verb, 5000));
    }
    let dict = Dictionary::new(&list, "", logs());
    for &(reading, expected) in cases {
        let results = dict.lookup(reading);
        assert_eq!(
            results.first().map(|e| e.surface.as_str()),
            Some(expected),
            "{expected} should top {reading}",
        );
        let kata = results.iter().position(|e| is_kata_dominant(&e.surface)).unwrap();
        let last_kanji = results
            .iter()
            .rposition(|e| surface_contains_kanji(&e.surface))
            .unwrap();
        assert!(kata > last_kanji, "{reading}: katakana at {kata}, kanji up to {last_kanji}");
    }
}

#[test]
fn priority_overrides_promote_everyday_words() {
    // Everyday words with the rare or literary homophones that bury them.
    let list = vec![
        word("みち", "道", Noun, 3786),
        word("みち", "未知", Noun, 3957),
        word("うみ", "海", Noun, 1714),
        word("うみ", "生み", Noun, 5576),
        word("め", "目", Noun, 3921),
        word("め", "眼", Noun, 5460),
        word("かわ", "川", Noun, 1150),
        word("かわ", "皮", Noun, 3755),
        word("かみ", "髪", Noun, 3300),
        word("かみ", "神", Noun, 3065),
        word("かみ", "加味", Noun, 3609),
        word("りょうり", "料理", Noun, 3968),
        word("りょうり", "良吏", Noun, 4296),
        word("かぎ", "鍵", Noun, 4119),
        word("かぎ", "鈎", Noun, 4124),
        word("ひと", "人", Noun, 2882),
        word("ひと", "匪徒", Noun, 3982),
        word("こと", "事", Noun, 1188),
        word("こと", "古都", Noun, 4603),
        word("じしょ", "辞書", Noun, 4465),
        word("じしょ", "字書", Noun, 4594),
        word("みる", "見る", Verb, 2999),
        word("みる", "海松", Noun, 4120),
        word("いのる", "祈る", Verb, 2678),
        word("いのる", "祷る", Verb, 2850),
        word("およぐ", "泳ぐ", Verb, 2770),
        word("およぐ", "游ぐ", Verb, 2850),
        word("とじる", "閉じる", Verb, 2845),
        word("とじる", "綴じる", Verb, 2850),
        word("つくる", "作る", Verb, 2449),
        word("つくる", "創る", Verb, 2850),
        word("あう", "会う", Verb, 2743),
        word("あう", "遭う", Verb, 2768),
        word("さがす", "探す", Verb, 2817),
        word("さがす", "捜す", Verb, 2850),
        word("あめ", "雨", Noun, 5200),
        word("あめ", "飴", Noun, 4100),
    ];
    let dict = Dictionary::new(&list, "", logs());
    for (reading, expected) in [
        ("みち", "道"),
        ("うみ", "海"),
        ("め", "目"),
        ("かわ", "川"),
        ("かみ", "髪"),
        ("りょうり", "料理"),
        ("かぎ", "鍵"),
        ("ひと", "人"),
        ("こと", "事"),
        ("じしょ", "辞書"),
        ("みる", "見る"),
        ("いのる", "祈る"),
        ("およぐ", "泳ぐ"),
        ("とじる", "閉じる"),
        ("つくる", "作る"),
        ("あう", "会う"),
        ("さがす", "探す"),
    ] {
        let results = dict.lookup(reading);
        assert_eq!(
            results.first().map(|e| e.surface.as_str()),
            Some(expected),
            "expected {expected} to top the {reading} group",
        );
    }
    // Pairs that context decides are not forced.
    let ame = dict.lookup("あめ");
    assert_eq!(ame.first().map(|e| e.surface.as_str()), Some("雨"));
}

#[test]
fn tokoro_defaults_to_tokoro_place() {
    let list = vec![
        word("ところ", "所", Noun, 1685),
        word("ところ", "野老", Noun, 3755),
        word("ところ", "処", Noun, 2978),
    ];
    let dict = Dictionary::new(&list, "", logs());
    assert_eq!(top(&dict.segment("ところ")[0]), Some("所"));
}

#[test]
fn segmentation_tsugiha_defaults_to_next() {
    let list = vec![
        word("つぎ", "次", Noun, 3508),
        word("つぎ", "継ぎ", Noun, 3957),
        word("つぎは", "継歯", Noun, 4378),
        word("つぎは", "継端", Noun, 4378),
        word("は", "は", Particle, 9800),
    ];
    let dict = Dictionary::new(&list, "", logs());
    let segs = dict.segment("つぎは");
    assert_eq!(segs.len(), 1, "got {:?}", readings(&segs));
    assert_eq!(top(&segs[0]), Some("次は"));
}

#[test]
fn segmentation_onegaishimasu() {
    let list = vec![
        word("おねがい", "お願い", Noun, 3459),
        word("おね", "尾根", Noun, 4435),
        word("がいします", "害します", Verb, 5772),
        word("します", "します", Verb, 7000),
        word("し", "市", Noun, 5002),
        word("ます", "ます", Auxiliary, 6248),
    ];
    let dict = Dictionary::new(&list, "", logs());
    let segs = dict.segment("おねがいします");
    assert_eq!(readings(&segs), vec!["おねがい", "します"]);
    assert_eq!(top(&segs[0]), Some("お願い"));
}

#[test]
fn lookup_emoji() {
    let dict = dictionary();
    let results = dict.lookup("えがお");
    let surfaces: Vec<&str> = results.iter().map(|e| e.surface.as_str()).collect();
    assert!(surfaces.contains(&"😊"));

    let results = dict.lookup("ねこ");
    let surfaces: Vec<&str> = results.iter().map(|e| e.surface.as_str()).collect();
    assert!(surfaces.contains(&"🐱"));

    let emoji = results.iter().find(|e| e.surface == "🐱").unwrap();
    assert!(emoji.frequency <= 500);
}

#[test]
fn lookup_particles() {
    let dict = dictionary();
    let results = dict.lookup("は");
    assert!(!results.is_empty());
    assert_eq!(results[0].pos, PartOfSpeech::Particle);
}

#[test]
fn lookup_miss() {
    let dict = dictionary();
    let results = dict.lookup("zzz");
    assert!(results.is_empty());
}

#[test]
fn symbol_shortcut_ranks_below_common_word() {
    let dict = dictionary();
    let shita = dict.lookup("した");
    let arrow = shita.iter().find(|e| e.surface == "↓").map_or(0, |e| e.frequency);
    assert!(arrow > 0);
    let top_word = shita
        .iter()
        .filter(|e| !matches!(e.surface.as_str(), "↓" | "⇓"))
        .map(|e| e.frequency)
        .max()
        .unwrap_or(0);
    assert!(top_word > arrow, "↓ ({arrow}) must rank below the top した word ({top_word})");
}

#[test]
fn gaki_kaki_outranks_gaki_demon_and_merges() {
    let dict = dictionary();
    let gaki = dict.lookup("がき");
    let kaki = gaki.iter().find(|e| e.surface == "書き").map_or(0, |e| e.frequency);
    let demon = gaki.iter().find(|e| e.surface == "餓鬼").map_or(0, |e| e.frequency);
    assert!(kaki > demon, "書き ({kaki}) must outrank 餓鬼 ({demon})");

    let list = vec![
        word("した", "下", Noun, 5000),
        word("らく", "落", Noun, 4000),
        word("がき", "書き", Suffix, 3635),
        word("がき", "餓鬼", Noun, 4353),
    ];
    let dict = Dictionary::new(&list, "", logs());
    for (input, want) in [("したがき", "下書き"), ("らくがき", "落書き")] {
        let segs = dict.segment(input);
        assert_eq!(segs.len(), 1, "{input} should be one unit, got {:?}", readings(&segs));
        let best = segs[0].candidates.iter().rev().max_by_key(|e| e.frequency).unwrap();
        assert_eq!(best.surface, want);
    }
}

#[test]
fn learned_prefix_does_not_fragment_longer_compound() {
    let dict = dictionary();
    let mut scorer = UserScorer::new(score_table());
    scorer.load_score("けん", "件", 4);
    for input in ["けんさく", "けんさくになります"] {
        let segs = dict.segment_with_boost(input, &scorer);
        let first = top(&segs[0]).unwrap_or("");
        assert!(first.starts_with("検索"), "{input}: got {:?} ({first})", readings(&segs));
    }
}

#[test]
fn lookup_multiple_candidates() {
    let dict = dictionary();
    let results = dict.lookup("あめ");
    assert!(results.len() >= 2);
    let surfaces: Vec<&str> = results.iter().map(|e| e.surface.as_str()).collect();
    assert!(surfaces.contains(&"雨"));
}

#[test]
fn mod_prefix_lookup_basic() {
    let dict = dictionary();
    let results = dict.prefix_lookup("きょう");
    let surfaces: Vec<&str> = results.iter().map(|e| e.surface.as_str()).collect();
    assert!(surfaces.contains(&"今日"));
    assert!(surfaces.contains(&"京都"));
}

#[test]
fn mod_common_prefix_search_basic() {
    let dict = dictionary();
    let results = dict.common_prefix_search("きょうは");
    assert!(results.len() >= 2);
}

#[test]
fn segmentation_basic() {
    let dict = dictionary();
    let segments = dict.segment("きょうはいいてんきです");
    // A noun and a particle make one unit: きょう+は.
    assert_eq!(readings(&segments), vec!["きょうは", "いい", "てんき", "です"]);
}

#[test]
fn segmentation_with_candidates() {
    let dict = dictionary();
    let segments = dict.segment("きょうはいいてんきです");
    let kyou = segments.iter().find(|s| s.reading == "きょうは").unwrap();
    let surfaces: Vec<&str> = kyou.candidates.iter().map(|e| e.surface.as_str()).collect();
    assert!(surfaces.contains(&"今日は"), "expected 今日は in {:?}", surfaces);
}

#[test]
fn segmentation_unknown_word() {
    let dict = dictionary();
    // Not in the dictionary: one segment for each character.
    let segments = dict.segment("ぱぴぷ");
    assert_eq!(segments.len(), 3);
    assert_eq!(segments[0].reading, "ぱ");
}

#[test]
fn segmentation_toukyou() {
    let dict = dictionary();
    let segments = dict.segment("とうきょうにいく");
    assert_eq!(readings(&segments), vec!["とうきょうに", "いく"]);
}

#[test]
fn affix_merge_reclassifies_particle_homograph_as_suffix() {
    let mut list = words();
    list.push(word("かっせい", "活性", Noun, 5000));
    list.push(word("じつよう", "実用", Noun, 5000));
    list.push(word("じどう", "自動", Noun, 5000));
    list.push(word("みんしゅ", "民主", Noun, 5000));
    list.push(word("せんもん", "専門", Noun, 5000));
    let dict = Dictionary::new(&list, "", logs());
    for &(reading, expected_top) in &[
        ("せいじか", "政治化"),
        ("かっせいか", "活性化"),
        ("じつようか", "実用化"),
        ("じどうか", "自動化"),
        ("みんしゅか", "民主化"),
        ("せんもんか", "専門化"),
    ] {
        let segs = dict.segment(reading);
        assert_eq!(segs.len(), 1, "{reading}: got {:?}", readings(&segs));
        assert_eq!(top(&segs[0]), Some(expected_top), "{reading} top mismatch");
        let has_ka_ie = segs[0].candidates.iter().any(|e| e.surface.ends_with('家'));
        assert!(has_ka_ie, "{reading}: expected 家 form in candidate list");
    }
}

#[test]
fn affix_merge_reclassifies_prefix_homograph() {
    let mut list = words();
    list.push(word("ふ", "歩", Noun, 4764));
    list.push(word("ふ", "不", Prefix, 4503));
    list.push(word("ひ", "日", Noun, 4500));
    list.push(word("ひ", "非", Prefix, 4200));
    list.push(word("む", "無", Prefix, 4200));
    list.push(word("み", "未", Prefix, 4200));
    list.push(word("かのう", "可能", Noun, 4400));
    list.push(word("こうかい", "公開", Noun, 4100));
    list.push(word("かんけい", "関係", Noun, 4400));
    let dict = Dictionary::new(&list, "", logs());
    for &(reading, expected_top) in &[
        ("さいかくにん", "再確認"),
        ("ふかのう", "不可能"),
        ("ひこうかい", "非公開"),
        ("むかんけい", "無関係"),
        ("みかくにん", "未確認"),
    ] {
        let segs = dict.segment(reading);
        assert_eq!(segs.len(), 1, "{reading}: got {:?}", readings(&segs));
        assert_eq!(top(&segs[0]), Some(expected_top), "{reading} top mismatch");
    }
}

#[test]
fn segments_cover_the_reading() {
    let dict = dictionary();
    for reading in ["きょうはいいてんきです", "ぱぴぷ", "せいじか", "てきをたたく", ""] {
        let segs = dict.segment(reading);
        assert_eq!(readings(&segs).concat(), reading);
        let mut at = 0;
        for seg in &segs {
            assert_eq!(seg.start, at);
            at += seg.reading.chars().count();
        }
        assert_eq!(at, reading.chars().count());
    }
}

#[test]
fn split_particle_head_keeps_content_runnerup() {
    let dict = dictionary();
    let segs = dict.segment("てきをたたく");
    assert_eq!(readings(&segs), vec!["てき", "を", "たたく"]);
    let surfaces: Vec<&str> = segs[0].candidates.iter().map(|e| e.surface.as_str()).collect();
    assert!(surfaces.contains(&"敵"), "敵 must appear in てき candidates, got {:?}", surfaces);
}

#[test]
fn noun_particle_merge_hides_homograph_kanji() {
    let mut list = words();
    list.push(word("の", "之", Noun, 3000));
    list.push(word("あと", "蹟", Noun, 2500));
    list.push(word("あと", "痕", Noun, 2400));
    list.push(word("わたし", "私", Noun, 5500));
    list.push(word("わたし", "渡し", Noun, 3800));
    let dict = Dictionary::new(&list, "", logs());
    let cases: &[(&str, &[&str])] = &[
        ("あとは", &["後刃", "跡刃", "蹟刃", "痕刃"]),
        ("あとの", &["後之", "跡之", "蹟之", "痕之"]),
        ("わたしは", &["私刃", "わたし刃", "渡し刃"]),
        ("わたしの", &["私之", "わたし之", "渡し之"]),
    ];
    for &(reading, forbidden) in cases {
        let segs = dict.segment(reading);
        let surfaces: Vec<&str> = segs
            .iter()
            .flat_map(|s| s.candidates.iter().map(|c| c.surface.as_str()))
            .collect();
        for bad in forbidden {
            assert!(!surfaces.contains(bad), "{reading}: {bad:?} leaked into {surfaces:?}");
        }
        let particle = reading.chars().last().unwrap();
        let head = reading.chars().next().unwrap();
        let has_kanji_particle = surfaces
            .iter()
            .any(|s| s.ends_with(particle) && s.chars().count() >= 2 && !s.starts_with(head));
        assert!(has_kanji_particle, "{reading}: no kanji with {particle} in {surfaces:?}");
    }
}

#[test]
fn segmentation_katakana_coverage() {
    let mut list = words();
    for (reading, surface) in [
        ("さーばー", "サーバー"),
        ("でーたべーす", "データベース"),
        ("らいぶらりー", "ライブラリー"),
        ("こんてなー", "コンテナー"),
        ("えんどぽいんと", "エンドポイント"),
        ("りくえすと", "リクエスト"),
        ("れすぽんす", "レスポンス"),
        ("あるごりずむ", "アルゴリズム"),
        ("きゃっしゅ", "キャッシュ"),
        ("でぷろい", "デプロイ"),
    ] {
        list.push(word(reading, surface, Noun, 4500));
    }
    let dict = Dictionary::new(&list, EMOJI, logs());
    let tests: &[(&str, &[&str])] = &[
        ("さーばー", &["さーばー"]),
        ("でーたべーす", &["でーたべーす"]),
        ("ふれーむわーく", &["ふれーむわーく"]),
        ("らいぶらりー", &["らいぶらりー"]),
        ("こんてなー", &["こんてなー"]),
        ("どっかー", &["どっかー"]),
        ("くらうど", &["くらうど"]),
        ("えんどぽいんと", &["えんどぽいんと"]),
        ("りくえすと", &["りくえすと"]),
        ("れすぽんす", &["れすぽんす"]),
        ("でぃーぷらーにんぐ", &["でぃーぷらーにんぐ"]),
        ("あるごりずむ", &["あるごりずむ"]),
        ("きゃっしゅ", &["きゃっしゅ"]),
        ("でぷろい", &["でぷろい"]),
        ("まいくろさーびす", &["まいくろさーびす"]),
    ];
    for &(input, expected) in tests {
        let segs = dict.segment(input);
        assert_eq!(readings(&segs), expected, "{input}");
    }
}

#[test]
fn general_supplement_coverage() {
    let dict = dictionary();
    let cases: &[(&str, &str)] = &[
        ("かのうせい", "可能性"),
        ("ざんりょう", "残量"),
        ("きょうどう", "協働"),
        ("つくろう", "作ろう"),
        ("とろう", "取ろう"),
        ("のこして", "残して"),
        ("よわく", "弱く"),
        ("いなく", "いなく"),
        ("とくのう", "特濃"),
        ("いしがま", "石窯"),
        ("にんにくのめ", "にんにくの芽"),
        ("わら", "(笑)"),
        ("まいぐれーしょん", "マイグレーション"),
        ("いれぎゅらー", "イレギュラー"),
        ("いんすとーら", "インストーラ"),
        ("おーとちゃーじ", "オートチャージ"),
        ("けいせん", "┌"),
        ("あぷり", "アプリ"),
        ("すまほ", "スマホ"),
        ("れいあうと", "レイアウト"),
        ("えびでんす", "エビデンス"),
        ("りさいず", "リサイズ"),
        ("もーだる", "モーダル"),
        ("ぷろふ", "プロフ"),
        ("いんぷれ", "インプレ"),
        ("いぼのいと", "揖保乃糸"),
        ("しゃうえっせん", "シャウエッセン"),
        ("りすぺりどん", "リスペリドン"),
        ("さるたな", "サルタナ"),
        ("せたがやく", "世田谷区"),
        ("にっせき", "日赤"),
        ("かんさい", "関西"),
        ("いっぽん", "一本"),
        ("げっしょ", "月初"),
        ("ばくすい", "爆睡"),
        ("さくじつ", "昨日"),
        ("かれい", "加齢"),
        ("あたらし", "新し"),
        ("おいし", "美味し"),
        ("すずし", "涼し"),
        ("やさし", "優し"),
        ("いれ", "淹れ"),
        ("おそく", "遅く"),
        ("つよ", "強"),
        ("つよく", "強く"),
        ("つよくて", "強くて"),
        ("つよくない", "強くない"),
        ("つよさ", "強さ"),
        ("たかく", "高く"),
        ("たかくない", "高くない"),
        ("たかさ", "高さ"),
        ("はやく", "早く"),
        ("ひろく", "広く"),
        ("ひろさ", "広さ"),
        ("せまく", "狭く"),
        ("ながく", "長く"),
        ("ながさ", "長さ"),
        ("ひくく", "低く"),
        ("しろく", "白く"),
        ("おもく", "重く"),
        ("おもさ", "重さ"),
        ("とおく", "遠く"),
        ("わかく", "若く"),
        ("わかさ", "若さ"),
        ("みじかく", "短く"),
        ("すごく", "凄く"),
        ("うれしく", "嬉しく"),
        ("うれしさ", "嬉しさ"),
        ("かなしく", "悲しく"),
        ("たのしく", "楽しく"),
        ("たのしさ", "楽しさ"),
        ("さびしく", "寂しく"),
        ("よろしく", "宜しく"),
        ("ふるさ", "古さ"),
        ("ふとさ", "太さ"),
        ("くらっかー", "🎉"),
    ];
    for &(reading, expected) in cases {
        let segs = dict.segment(reading);
        let found = segs
            .iter()
            .flat_map(|s| s.candidates.iter())
            .any(|c| c.surface == expected);
        assert!(found, "{reading}: expected {expected}");
    }
}

#[test]
fn i_adjective_conjugation_coverage() {
    let dict = dictionary();
    let families: &[(&str, &str)] = &[
        ("つよ", "強"),
        ("たか", "高"),
        ("はや", "早"),
        ("ひろ", "広"),
        ("せま", "狭"),
        ("なが", "長"),
        ("ひく", "低"),
        ("しろ", "白"),
        ("おも", "重"),
        ("とお", "遠"),
        ("わか", "若"),
        ("みじか", "短"),
        ("すご", "凄"),
        ("うれし", "嬉し"),
        ("かなし", "悲し"),
        ("たのし", "楽し"),
        ("さびし", "寂し"),
        ("はや", "速"),
    ];
    let forms = ["く", "くて", "くない", "さ"];
    for &(stem_reading, stem_surface) in families {
        for form in forms {
            let reading = format!("{stem_reading}{form}");
            let expected = format!("{stem_surface}{form}");
            let segs = dict.segment(&reading);
            let found = segs
                .iter()
                .flat_map(|s| s.candidates.iter())
                .any(|c| c.surface == expected);
            assert!(found, "{reading}: expected {expected}");
        }
    }
}

#[test]
fn add_entry_runtime() {
    let mut dict = dictionary();
    let count_before = dict.len();
    dict.add_entry(word("てすと", "テスト", PartOfSpeech::Noun, 8000));
    assert_eq!(dict.len(), count_before + 1);
    let results = dict.lookup("てすと");
    assert_eq!(results[0].surface, "テスト");
}

#[test]
fn identity_based_delete_preserves_concurrent_add() {
    let mut dict = dictionary();
    let builtin = dict.len();
    let entry = |r: &str, s: &str| word(r, s, PartOfSpeech::Noun, 8000);
    dict.add_entry(entry("あ", "A"));
    dict.add_entry(entry("い", "B"));
    dict.add_entry(entry("う", "C"));
    dict.add_entry(entry("え", "D"));
    let mut live: Vec<DictionaryEntry> = dict.user_entries().to_vec();
    let before = live.len();
    live.retain(|e| !(e.reading == "い" && e.surface == "B"));
    assert_eq!(live.len(), before - 1);
    dict.replace_user_entries(live);
    let surfaces: Vec<String> = dict.user_entries().iter().map(|e| e.surface.clone()).collect();
    assert_eq!(surfaces, vec!["A", "C", "D"]);
    assert_eq!(dict.len(), builtin + 3);
}

#[test]
fn importing_skips_what_is_known() {
    let mut dict = dictionary();
    dict.add_entry(word("らすと", "Rust", PartOfSpeech::Noun, 7000));
    let all: Vec<DictionaryEntry> = vec![
        word("らすと", "Rust", PartOfSpeech::Noun, 7000),
        word("きょう", "今日", PartOfSpeech::Noun, 6500),
    ];
    let mut other = dictionary();
    assert_eq!(other.import(&all), 1);
    assert_eq!(other.lookup("らすと")[0].surface, "Rust");
    assert_eq!(other.import(&all), 0);
    let many = vec![
        word("いち", "壱", PartOfSpeech::Noun, 1),
        word("に", "弐", PartOfSpeech::Noun, 1),
    ];
    let twice = vec![many[0].clone(), many[0].clone(), all[0].clone(), many[1].clone()];
    assert_eq!(other.new_entries(&twice).len(), 2);
    // The store took one word and failed then.
    assert!(other.import_and_persist(&many, Some(1)).is_err());
    assert!(other.has_entry("いち", "壱"));
    assert!(!other.has_entry("に", "弐"));
    assert_eq!(other.import_and_persist(&many, None), Ok(1));
    assert_eq!(other.import_and_persist(&many, Some(0)), Ok(0));
}

#[test]
fn words_of_the_user_follow_the_store() {
    let mut dict = dictionary();
    let e = || word("aaa", "AAA", PartOfSpeech::Noun, 8000);
    assert!(dict.add_user_entry_and_persist(e(), StoreReply::Failed).is_err());
    assert!(!dict.has_user_entry("aaa", "AAA"));
    assert!(dict.add_user_entry_and_persist(e(), StoreReply::Done).is_ok());
    assert!(dict.has_user_entry("aaa", "AAA"));
    let row = dict.updated_user_entry("aaa", "AAA", "bbb", "BBB").unwrap();
    assert_eq!((row.reading.as_str(), row.frequency), ("bbb", 8000));
    assert_eq!(
        dict.update_user_entry_and_persist("aaa", "AAA", "bbb", "BBB", StoreReply::Done),
        Ok(true),
    );
    assert!(dict.has_user_entry("bbb", "BBB"));
    assert_eq!(
        dict.remove_user_entry_and_persist("bbb", "BBB", StoreReply::Failed),
        Err(StoreFailed),
    );
    assert_eq!(dict.remove_user_entry_and_persist("bbb", "BBB", StoreReply::Done), Ok(true));
    assert_eq!(dict.remove_user_entry_and_persist("bbb", "BBB", StoreReply::Done), Ok(false));
}

#[test]
fn parts_of_speech_have_names_and_costs() {
    assert_eq!(pos_to_str(PartOfSpeech::Suffix), "Suffix");
    assert_eq!(str_to_pos("Suffix"), Some(PartOfSpeech::Suffix));
    assert_eq!(str_to_pos("suffix"), None);
    assert_eq!(PartOfSpeech::Other.idx(), 10);
    assert_eq!(connection_cost(None, PartOfSpeech::Noun), 0);
    assert_eq!(connection_cost(Some(PartOfSpeech::Noun), PartOfSpeech::Particle), 1667);
    assert_eq!(connection_cost(Some(PartOfSpeech::Particle), PartOfSpeech::Auxiliary), 6287);
    for (prev, cur, cost) in [
        (Particle, Noun, 3500),
        (Particle, Adjective, 2500),
        (Particle, Verb, 3000),
        (Particle, Adverb, 3500),
        (Adjective, Noun, 2000),
        (Adverb, Verb, 2500),
        (Adverb, Adjective, 2500),
        (Noun, Suffix, 2500),
    ] {
        assert_eq!(connection_cost(Some(prev), cur), cost, "{prev:?} {cur:?}");
    }
}

#[test]
fn only_verbs_have_families() {
    let corrections = vec![
        word("つくる", "作る", Verb, 12000),
        word("とうこう", "投稿", Noun, 4600),
        word("みる", "見る", Verb, 3000),
        word("します", "します", Verb, 9500),
        word("さがす", "探す", Verb, 5800),
    ];
    let families = collect_verb_stems(&corrections);
    let stems: Vec<(String, String, u32)> = families
        .iter()
        .map(|f| (f.reading.iter().collect(), f.surface.iter().collect(), f.frequency))
        .collect();
    assert_eq!(
        stems,
        vec![
            ("つく".to_string(), "作".to_string(), 12000),
            ("さが".to_string(), "探".to_string(), 5800),
        ],
    );
}

#[test]
fn units_without_a_word_are_spelled_from_their_pieces() {
    let dict = dictionary();
    let whole = dict.candidates_for_unit("きょう");
    assert_eq!(whole[0].surface, "今日");
    let glued = dict.candidates_for_unit("をいく");
    assert!(glued.iter().any(|e| e.surface == "を行く"), "{glued:?}");
    assert!(dict.candidates_for_unit("ぱ").is_empty());
}

#[test]
fn monogaki_stays_particle_split_in_context() {
    let list = vec![
        word("もの", "物", Noun, 3248),
        word("がき", "書き", Suffix, 4400),
        word("がき", "餓鬼", Noun, 4353),
        word("が", "が", Particle, 9800),
        word("き", "気", Noun, 5000),
        word("に", "に", Particle, 9800),
        word("なる", "なる", Verb, 6000),
        word("まわり", "周り", Noun, 4500),
        word("の", "の", Particle, 9800),
    ];
    let dict = Dictionary::new(&list, "", logs());
    for reading in ["ものがきになる", "まわりのものがきになる"] {
        let segs = dict.segment(reading);
        let joined = readings(&segs);
        assert!(joined.iter().all(|r| !r.contains("ものがき")), "{reading}: {joined:?}");
        assert!(joined.contains(&"ものが") && joined.contains(&"きに"), "{reading}: {joined:?}");
    }
}

#[test]
fn everyday_two_char_nouns_survive_particle_head_split() {
    let list = vec![
        word("にく", "肉", Noun, 4300),
        word("はし", "橋", Noun, 4200),
        word("とき", "時", Noun, 4000),
        word("とち", "土地", Noun, 4400),
        word("のど", "喉", Noun, 4100),
        word("にわ", "庭", Noun, 4300),
        word("に", "に", Particle, 9800),
        word("は", "は", Particle, 9800),
        word("と", "と", Particle, 9500),
        word("の", "の", Particle, 9800),
        word("を", "を", Particle, 9800),
        word("が", "が", Particle, 9800),
        word("く", "苦", Noun, 4000),
        word("し", "市", Noun, 5002),
        word("き", "気", Noun, 5000),
        word("ち", "血", Noun, 4100),
        word("ど", "度", Suffix, 3000),
        word("わ", "輪", Noun, 3900),
        word("たべる", "食べる", Verb, 5000),
        word("わたる", "渡る", Verb, 4500),
        word("きた", "来た", Verb, 5000),
        word("かう", "買う", Verb, 4800),
        word("いたい", "痛い", Adjective, 4700),
        word("みる", "見る", Verb, 5000),
    ];
    let dict = Dictionary::new(&list, "", logs());
    for (reading, want) in [
        ("にくをたべる", "肉"),
        ("はしをわたる", "橋"),
        ("ときがきた", "時"),
        ("とちをかう", "土地"),
        ("のどがいたい", "喉"),
        ("にわをみる", "庭"),
    ] {
        let segs = dict.segment(reading);
        let reachable =
            segs.iter().any(|s| s.candidates.iter().any(|e| e.surface.contains(want)));
        assert!(reachable, "{reading}: {want} is in no candidate of {:?}", readings(&segs));
    }
}

#[test]
fn shimasu_survives_masu_learning_boost() {
    let list = vec![
        word("おねがい", "お願い", Noun, 3459),
        word("します", "します", Verb, 7000),
        word("し", "市", Noun, 5002),
        word("ます", "ます", Auxiliary, 6248),
        word("さい", "際", Noun, 4950),
        word("さい", "再", Prefix, 4213),
        word("かくにん", "確認", Noun, 5200),
        word("を", "を", Particle, 9800),
    ];
    let dict = Dictionary::new(&list, "", logs());
    let mut scorer = UserScorer::new(score_table());
    scorer.load_score("ます", "ます", 1);
    scorer.load_score("さい", "再", 3);
    for reading in ["おねがいします", "さいかくにんをおねがいします"] {
        let segs = dict.segment_with_boost(reading, &scorer);
        let whole = segs.iter().find(|s| s.reading == "します");
        assert!(whole.is_some(), "{reading}: {:?}", readings(&segs));
        assert_eq!(top(whole.unwrap()), Some("します"));
    }
}

/// Words for counting hours and people.
fn counting_words() -> Dictionary {
    let list = vec![
        word("なん", "何", Noun, 4500),
        word("なん", "なん", Noun, 4300),
        word("なんじ", "汝", Noun, 4200),
        word("じかん", "時間", Noun, 5200),
        word("かん", "感", Noun, 4300),
        word("かん", "間", Suffix, 4000),
        word("にん", "忍", Noun, 4206),
        word("にん", "人", Suffix, 1859),
        word("さい", "際", Noun, 4950),
        word("さい", "再", Prefix, 4213),
        word("さいかく", "才覚", Noun, 4300),
        word("かくにん", "確認", Noun, 5200),
    ];
    Dictionary::new(&list, "", logs())
}

#[test]
fn affix_merge_survives_user_scorer_boost() {
    let dict = counting_words();
    let mut scorer = UserScorer::new(score_table());
    scorer.load_score("さい", "再", 3);
    scorer.load_score("なん", "なん", 2);
    scorer.load_score("なん", "何", 1);
    scorer.load_score("にん", "人", 1);
    scorer.load_score("かん", "感", 1);
    scorer.load_score("かん", "間", 1);
    for (reading, expected) in
        [("なんじかん", "何時間"), ("さいかくにん", "再確認"), ("なんにん", "何人")]
    {
        let segs = dict.segment_with_boost(reading, &scorer);
        assert_eq!(segs.len(), 1, "{reading}: {:?}", readings(&segs));
        assert_eq!(top(&segs[0]), Some(expected), "{reading}");
    }
}

#[test]
fn affix_merge_reclassifies_noun_homograph_as_suffix() {
    let dict = counting_words();
    for (reading, expected) in [("なんにん", "何人"), ("なんじかん", "何時間")] {
        let segs = dict.segment(reading);
        assert_eq!(segs.len(), 1, "{reading}: {:?}", readings(&segs));
        assert_eq!(top(&segs[0]), Some(expected), "{reading}");
    }
}

#[test]
fn segmentation_common_words() {
    let list = vec![
        word("りょうかい", "了解", Noun, 4500),
        word("かんりょう", "完了", Noun, 4600),
        word("じゅんばん", "順番", Noun, 4200),
        word("しょうがい", "障害", Noun, 4700),
        word("しました", "しました", Verb, 7000),
        word("した", "した", Verb, 7000),
        word("した", "下", Noun, 5000),
        word("です", "です", Auxiliary, 9000),
        word("に", "に", Particle, 9800),
        word("が", "が", Particle, 9800),
        word("ある", "ある", Verb, 7000),
        word("りょう", "量", Noun, 4800),
        word("かい", "会", Suffix, 4300),
        word("かん", "間", Suffix, 4000),
        word("しょう", "賞", Noun, 4300),
        word("がい", "害", Noun, 4100),
    ];
    let dict = Dictionary::new(&list, "", logs());
    let cases: &[(&str, &[&str])] = &[
        ("りょうかい", &["りょうかい"]),
        ("かんりょう", &["かんりょう"]),
        ("じゅんばん", &["じゅんばん"]),
        ("しょうがい", &["しょうがい"]),
        ("りょうかいしました", &["りょうかい", "しました"]),
        ("りょうかいです", &["りょうかい", "です"]),
        ("かんりょうした", &["かんりょう", "した"]),
        ("かんりょうです", &["かんりょう", "です"]),
        ("じゅんばんに", &["じゅんばんに"]),
        ("じゅんばんです", &["じゅんばん", "です"]),
        ("しょうがいがある", &["しょうがいが", "ある"]),
        ("しょうがいです", &["しょうがい", "です"]),
    ];
    for (input, expected) in cases {
        let segs = dict.segment(input);
        assert_eq!(&readings(&segs), expected, "{input}");
    }
}
