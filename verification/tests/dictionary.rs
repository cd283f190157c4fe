use qlover::model::dictionary::{Dictionaries, Outline, Output, StenoDictionary};
use rustc_hash::FxHashMap;

fn outline(s: &[&str]) -> Outline {
    Outline(s.iter().map(|x| x.to_string()).collect())
}

fn text(s: &str) -> Output {
    Output::String(s.to_string())
}

#[test]
fn outline_notation() {
    assert_eq!(outline(&["KAT", "ER"]).to_notation(), "KAT/ER");
    assert_eq!(outline(&["A"]).to_notation(), "A");
    assert_eq!(outline(&[]).to_notation(), "");
    assert_eq!(Outline::from_notation("KAT/ER"), outline(&["KAT", "ER"]));
    assert_eq!(Outline::from_notation(""), outline(&[""]));
    assert_eq!(Outline::from_notation("A//B/"), outline(&["A", "", "B", ""]));
}

#[test]
fn outline_notation_roundtrip() {
    for o in [outline(&["A"]), outline(&["STKPW", "HR", "AO"]), outline(&["", "X"])] {
        assert_eq!(Outline::from_notation(&o.to_notation()), o);
    }
    for s in ["", "/", "A/B", "//x//"] {
        assert_eq!(Outline::from_notation(s).to_notation(), s);
    }
}

#[test]
fn dictionary_get_returns_inserted() {
    let mut map = FxHashMap::default();
    map.insert(outline(&["KAT"]), text("cat"));
    map.insert(outline(&["KAT", "ER"]), text("cater"));
    map.insert(outline(&["K-T"]), text("cat"));
    let dict = StenoDictionary::new(map.clone());
    for (o, out) in &map {
        assert_eq!(dict.get(o), Some(out));
    }
    assert_eq!(dict.get(&outline(&["TKOG"])), None);
    let mut cats = dict.rev_get(&text("cat")).unwrap().clone();
    cats.sort();
    assert_eq!(cats, vec![outline(&["K-T"]), outline(&["KAT"])]);
    assert_eq!(dict.rev_get(&text("cater")), Some(&vec![outline(&["KAT", "ER"])]));
    assert_eq!(dict.rev_get(&text("dog")), None);
}

#[test]
fn dictionary_stack_first_wins() {
    let mut a = FxHashMap::default();
    a.insert(outline(&["A"]), text("first"));
    let mut b = FxHashMap::default();
    b.insert(outline(&["A"]), text("second"));
    b.insert(outline(&["B"]), text("bee"));
    let mut dicts = Dictionaries::default();
    assert_eq!(dicts.get(&outline(&["A"])), None);
    dicts.stack.push(StenoDictionary::new(a));
    dicts.stack.push(StenoDictionary::new(b));
    assert_eq!(dicts.get(&outline(&["A"])), Some(&text("first")));
    assert_eq!(dicts.get(&outline(&["B"])), Some(&text("bee")));
    assert_eq!(dicts.get(&outline(&["C"])), None);
    assert_eq!(dicts.rev_get(&text("second")), Some(&vec![outline(&["A"])]));
    assert_eq!(dicts.rev_get(&text("none")), None);
}

#[test]
fn dictionary_entry_list() {
    let mut map = FxHashMap::default();
    map.insert(outline(&["KAT"]), text("cat"));
    map.insert(outline(&["TKOG"]), text("dog"));
    let dict = StenoDictionary::new(map);
    let mut list = dict.entry_list();
    list.sort();
    assert_eq!(list, vec![(outline(&["KAT"]), text("cat")), (outline(&["TKOG"]), text("dog"))]);
    let rebuilt = StenoDictionary::new(list.into_iter().collect());
    assert_eq!(rebuilt.get(&outline(&["TKOG"])), Some(&text("dog")));
}

#[test]
fn dictionary_longest_key() {
    let mut map = FxHashMap::default();
    map.insert(outline(&["KAT"]), text("cat"));
    map.insert(outline(&["KAT", "ER"]), text("cater"));
    map.insert(outline(&["A", "B", "C"]), text("abc"));
    assert_eq!(StenoDictionary::new(map).longest_key(), 3);
    let empty: FxHashMap<Outline, Output> = FxHashMap::default();
    assert_eq!(StenoDictionary::new(empty).longest_key(), 0);
}
