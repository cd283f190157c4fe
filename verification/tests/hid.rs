use qlover::input::plover_hid::{
    first_plover_hid, is_plover_hid, parse_report, ChordDetector, ChordMode, HidEvent, REPORT_ID,
};
use qlover::model::stroke::{KeySide, LetterWithSide, Stroke};
use qlover::{
    english_system, english_system_keys, hid_key_to_canonical, hid_to_keys, steno_key_chart,
    Engine, EngineCommand,
};

fn key(letter: char, side: KeySide) -> LetterWithSide {
    LetterWithSide { letter, side }
}

#[test]
fn canonical_keys() {
    assert_eq!(hid_key_to_canonical("S1-"), Some(key('S', KeySide::Left)));
    assert_eq!(hid_key_to_canonical("S2-"), Some(key('S', KeySide::Left)));
    assert_eq!(hid_key_to_canonical("*3"), Some(key('*', KeySide::Unsided)));
    assert_eq!(hid_key_to_canonical("#B"), Some(key('#', KeySide::Unsided)));
    assert_eq!(hid_key_to_canonical("#9"), Some(key('#', KeySide::Unsided)));
    assert_eq!(hid_key_to_canonical("O-"), Some(key('O', KeySide::Left)));
    assert_eq!(hid_key_to_canonical("-Z"), Some(key('Z', KeySide::Right)));
    assert_eq!(hid_key_to_canonical("S-"), None);
    assert_eq!(hid_key_to_canonical("#D"), None);
    assert_eq!(hid_key_to_canonical("*5"), None);
    assert_eq!(hid_key_to_canonical("E-"), None);
    assert_eq!(hid_key_to_canonical("X1"), None);
    assert_eq!(hid_key_to_canonical(""), None);
}

#[test]
fn chart_entries() {
    assert_eq!(steno_key_chart(63), Some("S1-"));
    assert_eq!(steno_key_chart(53), Some("-E"));
    assert_eq!(steno_key_chart(26), Some("#C"));
    assert_eq!(steno_key_chart(25), None);
    assert_eq!(steno_key_chart(0), None);
    assert_eq!(steno_key_chart(64), None);
}

#[test]
fn hid_bits_to_keys() {
    assert_eq!(hid_to_keys(0), vec![]);
    assert_eq!(hid_to_keys(1 << 63), vec![key('S', KeySide::Left)]);
    // Lowest bit first: -E (bit 53) comes before S- (bit 63).
    assert_eq!(
        hid_to_keys((1 << 63) | (1 << 53)),
        vec![key('E', KeySide::Right), key('S', KeySide::Left)]
    );
    // The unused keys give nothing.
    assert_eq!(hid_to_keys((1 << 26) - 1), vec![]);
    // S1- and S2- are both S-.
    assert_eq!(
        hid_to_keys((1 << 63) | (1 << 40)),
        vec![key('S', KeySide::Left), key('S', KeySide::Left)]
    );
}

#[test]
fn english_system_shape() {
    let sys = english_system();
    assert_eq!(sys.keys.to_vec(), english_system_keys());
    assert_eq!(sys.keys.len(), 23);
    assert_eq!(sys.right_keys_index(), 11);
    assert_eq!(sys.implicit_hyphen_mask(), 0b1_1111_0000_0000);
}

#[test]
fn every_hid_state_is_an_english_stroke() {
    let sys = english_system();
    for bits in [u64::MAX, 1 << 63, (1 << 41) | (1 << 36), 0xFFFF_FFC0_0000_0000, 1 << 26] {
        assert!(sys.stroke_from_keys(&hid_to_keys(bits)).is_some());
    }
}

#[test]
fn plover_hid_devices() {
    assert!(is_plover_hid(0xFF50, 0x4C56));
    assert!(!is_plover_hid(0xFF50, 0x4C57));
    assert_eq!(first_plover_hid(&[(1, 2), (0xFF50, 0x4C56), (0xFF50, 0x4C56)]), Some(1));
    assert_eq!(first_plover_hid(&[(1, 2)]), None);
    assert_eq!(first_plover_hid(&[]), None);
}

#[test]
fn report_parsing() {
    assert_eq!(parse_report(&[REPORT_ID, 0x80, 0, 0, 0, 0, 0, 0, 1]), Some((1usize << 63) | 1));
    assert_eq!(parse_report(&[REPORT_ID, 1, 2, 3, 4, 5, 6, 7, 8, 99]), Some(0x0102030405060708));
    assert_eq!(parse_report(&[REPORT_ID, 0, 0, 0, 0, 0, 0, 0]), None);
    assert_eq!(parse_report(&[0x51, 0, 0, 0, 0, 0, 0, 0, 0]), None);
    assert_eq!(parse_report(&[]), None);
}

#[test]
fn all_keys_up_chords() {
    let mut d = ChordDetector::new(ChordMode::AllKeysUp);
    assert_eq!(d.step(0), None);
    assert_eq!(d.step(0b001), None);
    assert_eq!(d.step(0b011), None);
    assert_eq!(d.step(0b010), None);
    assert_eq!(d.step(0b110), None);
    assert_eq!(d.step(0), Some(Stroke { mask: 0b111 }));
    assert_eq!(d.acc, 0);
    assert_eq!(d.step(0), None);
    assert_eq!(d.step(0b1000), None);
    assert_eq!(d.step(0), Some(Stroke { mask: 0b1000 }));
}

#[test]
fn first_up_chords() {
    let mut d = ChordDetector::new(ChordMode::FirstUp);
    assert_eq!(d.step(0b001), None);
    assert_eq!(d.step(0b011), None);
    // First release: the keys held until now.
    assert_eq!(d.step(0b010), Some(Stroke { mask: 0b011 }));
    // Further releases emit nothing until a key is pressed again.
    assert_eq!(d.step(0), None);
    assert_eq!(d.step(0b100), None);
    assert_eq!(d.step(0), Some(Stroke { mask: 0b100 }));
}

#[test]
fn reports_become_events() {
    let mut d = ChordDetector::new(ChordMode::AllKeysUp);
    assert!(d.on_report(&[REPORT_ID, 0, 0, 0, 0, 0, 0, 0, 5]).is_none());
    assert!(d.on_report(&[0x10, 0, 0, 0, 0, 0, 0, 0, 0]).is_none());
    assert_eq!(d.acc, 5);
    match d.on_report(&[REPORT_ID, 0, 0, 0, 0, 0, 0, 0, 0]) {
        Some(HidEvent::Stroke(st)) => assert_eq!(st.mask, 5),
        _ => panic!("expected a stroke"),
    }
}

fn texts(cmds: Vec<EngineCommand>) -> Vec<String> {
    cmds.into_iter()
        .map(|c| match c {
            EngineCommand::NotTranslated(s) => s,
            EngineCommand::Translated(s) => format!("translated: {}", s),
        })
        .collect()
}

#[test]
fn engine_poll_reports_strokes() {
    let mut engine = Engine::new();
    assert_eq!(engine.mode(), ChordMode::FirstUp);
    let events = vec![
        HidEvent::Stroke(Stroke::new((1 << 63) | (1 << 53))),
        HidEvent::Stroke(Stroke::new(0)),
        HidEvent::Disconnected,
        HidEvent::Stroke(Stroke::new(1 << 54)),
    ];
    assert_eq!(texts(engine.poll(events)), vec![r#"["-E", "S-"]"#.to_string(), r#"["*"]"#.to_string()]);
}

#[test]
fn engine_reports_invalid_strokes_in_decimal() {
    let mut engine = Engine::new();
    engine.system = qlover::model::stroke::parse_system("A- -B", None).unwrap().unwrap();
    let events = vec![HidEvent::Stroke(Stroke::new(1 << 63)), HidEvent::Stroke(Stroke::new(1 << 12))];
    assert_eq!(
        texts(engine.poll(events)),
        vec!["<9223372036854775808>".to_string(), "[]".to_string()]
    );
}
