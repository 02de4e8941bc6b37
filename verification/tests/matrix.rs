use bonolith::matrix::{
    aggregate, apply_overrides, map_pos, parse_id_def, parse_id_text, parse_matrix, read_eucjp,
    short, table_text, MatrixRow,
};
use bonolith::pos::{hand_tuned, PartOfSpeech};
use bonolith::pos::PartOfSpeech::{Noun, Other, Particle, Prefix, Suffix, Verb};

/// "0 名詞,接尾" and "2 動詞,自立" in EUC-JP.
const IDS: &[u8] = &[
    b'0', b' ', 0xcc, 0xbe, 0xbb, 0xec, b',', 0xc0, 0xdc, 0xc8, 0xf8, b'\n', b'2', b' ', 0xc6, 0xb0,
    0xbb, 0xec, b',', 0xbc, 0xab, 0xce, 0xa9, b'\n',
];

#[test]
fn euc_jp_is_decoded() {
    let (text, malformed) = read_eucjp(&IDS.to_vec());
    assert_eq!(text, "0 名詞,接尾\n2 動詞,自立\n");
    assert!(!malformed);
    let (_, malformed) = read_eucjp(&vec![0xcc, 0x20]);
    assert!(malformed);
}

#[test]
fn context_files_are_read() {
    let (ids, malformed) = parse_id_def(&IDS.to_vec());
    assert_eq!(ids, Some(vec![Suffix, Other, Verb]));
    assert!(!malformed);
}

#[test]
fn contexts_by_number() {
    assert_eq!(
        parse_id_text("1 助詞,係助詞,*\n\n  0 名詞,一般\n3\n"),
        Some(vec![Noun, Particle, Other, Other])
    );
    assert_eq!(parse_id_text(""), Some(vec![]));
    assert_eq!(parse_id_text("x 名詞"), None);
    assert_eq!(parse_id_text("1,名詞"), None);
}

#[test]
fn parts_of_speech_are_mapped() {
    assert_eq!(map_pos("名詞", "一般"), Noun);
    assert_eq!(map_pos("名詞", "接尾"), Suffix);
    assert_eq!(map_pos("接頭詞", "名詞接続"), Prefix);
    assert_eq!(map_pos("記号", ""), Other);
}

#[test]
fn matrix_is_parsed_and_gathered() {
    let rows = parse_matrix("3 3\n0 2 -100\n0 2 50\n\n 2 9 7 \n").unwrap();
    assert_eq!(rows.len(), 3);
    assert_eq!((rows[0].left, rows[0].right, rows[0].cost), (0, 2, -100));
    let left = vec![Noun, Particle, Verb];
    let cells = aggregate(&rows, &left, &left);
    let cell = |l: PartOfSpeech, r: PartOfSpeech| {
        let c = &cells[l.idx() * 11 + r.idx()];
        (c.sum, c.count)
    };
    assert_eq!(cell(Noun, Verb), (-50, 2));
    assert_eq!(cell(Verb, Other), (7, 1));
    assert_eq!(cell(Verb, Noun), (0, 0));
    assert!(parse_matrix("header\n1 2\n").is_none());
    assert!(parse_matrix("header\n1 2 x\n").is_none());
    assert_eq!(parse_matrix("").unwrap().len(), 0);
    let none: Vec<MatrixRow> = Vec::new();
    assert!(aggregate(&none, &left, &left).iter().all(|c| c.count == 0));
}

#[test]
fn tuned_costs_are_kept() {
    let mut costs: Vec<i64> = vec![1234; 121];
    apply_overrides(&mut costs);
    assert_eq!(costs[Particle.idx() * 11 + Noun.idx()], 3500);
    assert_eq!(costs[Noun.idx() * 11 + Suffix.idx()], 2500);
    assert_eq!(costs[Noun.idx() * 11 + Noun.idx()], 1234);
    assert_eq!(hand_tuned(Particle, Verb), Some(3000));
    assert_eq!(hand_tuned(Noun, Verb), None);
}

#[test]
fn table_is_written() {
    let mut costs: Vec<i64> = vec![1005; 121];
    costs[0] = 0;
    apply_overrides(&mut costs);
    let text = table_text(&costs);
    let lines: Vec<&str> = text.lines().collect();
    assert_eq!(lines.len(), 11);
    assert_eq!(
        lines[0],
        "    [ 0.000, 1.005, 1.005, 1.005, 1.005, 1.005, 1.005, 1.005, 1.005, 2.500, 1.005  ],  // N ->   override: Suf"
    );
    assert_eq!(
        lines[10],
        "    [ 1.005, 1.005, 1.005, 1.005, 1.005, 1.005, 1.005, 1.005, 1.005, 1.005, 1.005  ],  // Other ->"
    );
    assert!(lines[4].ends_with("// Part ->   override: N, V, Adj, Adv"));
    assert_eq!(short(Prefix), "Pref");
}
