use qlover::model::{
    stroke::Stroke,
    translation::{Translation, Translator},
};

#[test]
fn test_simple() {
    let mut tr = Translator::new();
    let t = tr.translate(&[Stroke::new(0)]);
    assert_eq!(
        t,
        Translation {
            translated: "dummy".to_string()
        }
    );
}

#[test]
fn translate_ignores_outline() {
    let mut tr = Translator::new();
    let t = tr.translate(&[Stroke::new(3), Stroke::new(9)]);
    assert_eq!(t.translated, "dummy");
}
