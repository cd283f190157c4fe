use qlover::model::stroke::{
    parse_keys, parse_system, KeySide, LetterWithSide, StenoSystem, StenoSystemError, Stroke,
};

fn english_system_keys() -> Vec<LetterWithSide> {
    let s = r##"
        #
        S- T- K- P- W- H- R-
        A- O-
        *
        -E -U
        -F -R -P -B -L -G -T -S -D -Z
"##;

    parse_keys(s).unwrap()
}

fn english_system() -> StenoSystem {
    StenoSystem::new(&english_system_keys(), Some(8..13)).unwrap()
}

fn key(letter: char, side: KeySide) -> LetterWithSide {
    LetterWithSide { letter, side }
}

#[test]
fn test_minimal() {
    let system = english_system();

    assert_eq!(
        system.right_keys_index(),
        english_system_keys()
            .iter()
            .position(|l| *l
                == LetterWithSide {
                    letter: 'E',
                    side: KeySide::Right
                })
            .unwrap(),
    );

    assert_eq!(
        system.implicit_hyphen_mask(),
        (8..13).into_iter().fold(0usize, |acc, i| acc | (1 << i))
    );
}

#[test]
fn letter_parse_examples() {
    assert_eq!(LetterWithSide::parse("a-"), Some(key('a', KeySide::Left)));
    assert_eq!(LetterWithSide::parse("-a"), Some(key('a', KeySide::Right)));
    assert_eq!(LetterWithSide::parse("*"), Some(key('*', KeySide::Unsided)));
    assert_eq!(LetterWithSide::parse("-"), None);
    assert_eq!(LetterWithSide::parse("--"), None);
    assert_eq!(LetterWithSide::parse(""), None);
    assert_eq!(LetterWithSide::parse("ab"), None);
    assert_eq!(LetterWithSide::parse("a-b"), None);
    assert_eq!(LetterWithSide::parse("aaaaaaaaa"), None);
    assert_eq!(LetterWithSide::parse("é-"), Some(key('é', KeySide::Left)));
}

#[test]
fn letter_notation_roundtrip() {
    for k in [key('S', KeySide::Left), key('E', KeySide::Right), key('#', KeySide::Unsided)] {
        let n = k.to_notation();
        assert_eq!(LetterWithSide::parse(&n), Some(k));
    }
    assert_eq!(key('T', KeySide::Left).to_notation(), "T-");
    assert_eq!(key('T', KeySide::Right).to_notation(), "-T");
    assert_eq!(key('*', KeySide::Unsided).to_notation(), "*");
}

#[test]
fn stroke_basics() {
    assert_eq!(Stroke::new(5).mask, 5);
    assert!(Stroke::new(0).is_empty());
    assert!(!Stroke::new(1).is_empty());
}

#[test]
fn parse_stroke_doc_example() {
    let keys = parse_keys("A- B- C -D -E").unwrap();
    let system = StenoSystem::new(&keys, Some(2..3)).unwrap();
    assert_eq!(system.clone().parse_stroke("AE"), Some(Stroke { mask: 17 }));
    assert_eq!(system.clone().parse_stroke("A-E"), Some(Stroke { mask: 17 }));
    assert_eq!(system.clone().parse_stroke("-D"), Some(Stroke { mask: 8 }));
    assert_eq!(system.clone().parse_stroke(""), Some(Stroke { mask: 0 }));
    // Out of steno order.
    assert_eq!(system.clone().parse_stroke("EA"), None);
    // Hyphen after a right-hand key.
    assert_eq!(system.clone().parse_stroke("E-"), None);
    // Unknown letter.
    assert_eq!(system.parse_stroke("X"), None);
}

#[test]
fn parse_stroke_english() {
    let system = english_system();
    // S- T- -E -S
    assert_eq!(
        system.clone().parse_stroke("ST-ES"),
        Some(Stroke { mask: (1 << 1) | (1 << 2) | (1 << 11) | (1 << 20) })
    );
    // -T is found on the right only after the hyphen.
    assert_eq!(system.parse_stroke("-T"), Some(Stroke { mask: 1 << 19 }));
}

#[test]
fn stroke_from_bitmask_bounds() {
    let system = english_system();
    assert_eq!(system.stroke_from_bitmask((1 << 23) - 1), Some(Stroke { mask: (1 << 23) - 1 }));
    assert_eq!(system.stroke_from_bitmask(1 << 23), None);
}

#[test]
fn stroke_from_keys_sums_keys() {
    let system = english_system();
    let a = vec![key('S', KeySide::Left), key('E', KeySide::Right)];
    let b = vec![key('#', KeySide::Unsided), key('Z', KeySide::Right)];
    let sa = system.stroke_from_keys(&a).unwrap();
    let sb = system.stroke_from_keys(&b).unwrap();
    assert_eq!(sa.mask, (1 << 1) | (1 << 11));
    let mut ab = a.clone();
    ab.extend(b.iter().cloned());
    assert_eq!(system.stroke_from_keys(&ab).unwrap().mask, sa.mask | sb.mask);
    // Order does not matter.
    let mut ba = b.clone();
    ba.extend(a.iter().cloned());
    assert_eq!(system.stroke_from_keys(&ba), system.stroke_from_keys(&ab));
    // A key of the wrong side is not found.
    assert_eq!(system.stroke_from_keys(&[key('E', KeySide::Left)]), None);
    // A key without side must be a key without side.
    assert_eq!(system.stroke_from_keys(&[key('S', KeySide::Unsided)]), None);
    assert_eq!(system.stroke_from_keys(&[]), Some(Stroke { mask: 0 }));
}

#[test]
fn system_errors() {
    let keys = parse_keys("A- -B C- D").unwrap();
    assert_eq!(
        StenoSystem::new(&keys, None).unwrap_err(),
        StenoSystemError::FoundLeftSideKeyInRightSide('C')
    );
    let keys = parse_keys("A- B -C").unwrap();
    assert_eq!(
        StenoSystem::new(&keys, Some(1..4)).unwrap_err(),
        StenoSystemError::OutOfRangeImplicitHyphenKeyRange
    );
    let keys = parse_keys("A- B -A").unwrap();
    assert_eq!(
        StenoSystem::new(&keys, Some(0..2)).unwrap_err(),
        StenoSystemError::NotAllImplicitHyphenKeysUnique
    );
    let keys = parse_keys("A- B -C").unwrap();
    let sys = StenoSystem::new(&keys, Some(1..3)).unwrap();
    assert_eq!(sys.implicit_hyphen_mask(), 0b110);
    assert_eq!(sys.right_keys_index(), 2);
    // No right-hand key: the right-hand keys start at the end.
    let keys = parse_keys("A- B-").unwrap();
    assert_eq!(StenoSystem::new(&keys, None).unwrap().right_keys_index(), 2);
}

#[test]
fn parse_keys_and_system() {
    assert_eq!(parse_keys("  A-\tB \n -C  ").unwrap().len(), 3);
    assert_eq!(parse_keys("").unwrap().len(), 0);
    assert_eq!(parse_keys("A- ab"), None);
    let s = "# S- T- K- P- W- H- R- A- O- * -E -U -F -R -P -B -L -G -T -S -D -Z";
    let sys = parse_system(s, Some(8..13)).unwrap().unwrap();
    assert_eq!(sys.keys.to_vec(), english_system_keys());
    assert!(parse_system("A- --", None).is_none());
    assert!(parse_system("A- B- A-", Some(0..1)).unwrap().is_err());
}

#[test]
fn stroke_from_keys_ignores_order_and_repetition() {
    let system = english_system();
    let a = vec![key('S', KeySide::Left), key('A', KeySide::Left), key('T', KeySide::Right)];
    let p = vec![key('T', KeySide::Right), key('S', KeySide::Left), key('A', KeySide::Left)];
    let mut aa = a.clone();
    aa.extend(a.iter().cloned());
    let expected = Some(Stroke { mask: (1 << 1) | (1 << 8) | (1 << 19) });
    assert_eq!(system.stroke_from_keys(&a), expected);
    assert_eq!(system.stroke_from_keys(&p), expected);
    assert_eq!(system.stroke_from_keys(&aa), expected);
    let bad = vec![key('S', KeySide::Left), key('Q', KeySide::Left)];
    let mut bad_twice = bad.clone();
    bad_twice.extend(bad.iter().rev().cloned());
    assert_eq!(system.stroke_from_keys(&bad), None);
    assert_eq!(system.stroke_from_keys(&bad_twice), None);
}

#[test]
fn parse_keys_of_joined_notations() {
    let keys = english_system_keys();
    let joined = keys.iter().map(|k| k.to_notation()).collect::<Vec<_>>().join(" ");
    assert_eq!(parse_keys(&joined), Some(keys));
    let one = vec![key('X', KeySide::Unsided)];
    assert_eq!(parse_keys("X"), Some(one));
    assert_eq!(parse_keys(""), Some(vec![]));
}

#[test]
fn parsed_stroke_stays_in_range() {
    let system = english_system();
    for s in ["STKPWHRAO*EUFRPBLGTSDZ", "#-Z", "-", "S-T", "KAT", ""] {
        let st = system.clone().parse_stroke(s).unwrap();
        assert_eq!(st.mask >> system.keys.len(), 0);
        assert_eq!(system.stroke_from_bitmask(st.mask), Some(st));
    }
    assert_eq!(system.clone().parse_stroke("ZS"), None);
}

#[test]
fn system_error_messages() {
    assert_eq!(StenoSystemError::InvalidImplicitHyphenKeys.message(), "invalid implicit hyphen keys");
    assert_eq!(
        StenoSystemError::OutOfRangeImplicitHyphenKeyRange.message(),
        "given out of range implicit hyphen key range"
    );
    assert_eq!(
        StenoSystemError::NotAllImplicitHyphenKeysUnique.message(),
        "not all implicit hyphen keys are unique"
    );
    assert_eq!(
        StenoSystemError::FoundLeftSideKeyInRightSide('C').message(),
        "found left side key in right side: C"
    );
}

#[test]
fn system_clone_keeps_everything() {
    let system = english_system();
    let copy = system.clone();
    assert_eq!(copy, system);
    assert_eq!(copy.keys.to_vec(), english_system_keys());
    assert_eq!(copy.parse_stroke("KAT"), system.parse_stroke("KAT"));
}
