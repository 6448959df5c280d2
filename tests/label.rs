use sodg::{Label, SodgError};

#[test]
fn reads_reserved_symbols() {
    assert_eq!(Label::Greek('ρ'), Label::from_text("ρ").unwrap());
    assert_eq!("ρ", Label::Greek('ρ').text());
}

#[test]
fn reads_indexes() {
    assert_eq!(Label::Alpha(12), Label::from_text("α12").unwrap());
    assert_eq!("α12", Label::Alpha(12).text());
    assert_eq!("α0", Label::Alpha(0).text());
}

#[test]
fn reads_short_texts() {
    let l = Label::from_text("foo").unwrap();
    assert_eq!(Label::Str(['f', 'o', 'o', '\0', '\0', '\0', '\0', '\0']), l);
    assert_eq!("foo", l.text());
    assert_eq!("a-привет", Label::from_text("a-привет").unwrap().text());
    assert_eq!("α", Label::from_text("α").unwrap().text());
}

#[test]
fn refuses_other_texts() {
    assert!(matches!(Label::from_text(""), Err(SodgError::InvalidArgument)));
    assert!(matches!(Label::from_text("too-long-name"), Err(SodgError::InvalidArgument)));
    assert!(matches!(Label::from_text("a\0b"), Err(SodgError::InvalidArgument)));
}
