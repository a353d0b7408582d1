use capburn::charset::Charset;

#[test]
fn from_spec_digits() {
    let cs = Charset::from_spec("digits").unwrap();
    assert_eq!(cs.len(), 10);
    assert_eq!(cs.index_of('0'), Some(0));
    assert_eq!(cs.index_of('9'), Some(9));
    assert_eq!(cs.index_of('a'), None);
}

#[test]
fn from_spec_combination_dedups() {
    let cs = Charset::from_spec("digits+0123").unwrap();
    assert_eq!(cs.len(), 10, "duplicate characters must not be repeated");
}

#[test]
fn from_spec_cyrillic_plus_digits() {
    let cs = Charset::from_spec("cyrillic+digits").unwrap();
    assert_eq!(cs.len(), 33 + 10);
    assert_eq!(cs.index_of('а'), Some(0));
    assert!(cs.index_of('5').is_some());
}

#[test]
fn from_spec_literal() {
    let cs = Charset::from_spec("ABC012").unwrap();
    assert_eq!(cs.len(), 6);
    assert_eq!(cs.as_chars(), "ABC012");
}

#[test]
fn from_chars_dedups() {
    let cs = Charset::from_chars("aabbcc");
    assert_eq!(cs.as_chars(), "abc");
}

#[test]
fn from_observed_by_family() {
    // one digit and one Russian letter → all digits + all lowercase Cyrillic
    let cs = Charset::from_observed("7я".chars()).unwrap();
    assert_eq!(cs.len(), 10 + 33);
    assert!(cs.index_of('0').is_some());
    assert!(cs.index_of('а').is_some());
    assert!(cs.index_of('A').is_none());
}

#[test]
fn try_char_at_out_of_range() {
    let cs = Charset::from_spec("digits").unwrap();
    assert_eq!(cs.try_char_at(0), Some('0'));
    assert_eq!(cs.try_char_at(999), None);
}

#[test]
fn empty_spec_errors() {
    assert!(Charset::from_spec("").is_err());
    assert!(Charset::from_spec("+").is_err());
}

#[test]
fn spec_names_ignore_case_and_spaces() {
    let cs = Charset::from_spec(" Digits + UPPER ").unwrap();
    assert_eq!(cs.as_chars(), "0123456789ABCDEFGHIJKLMNOPQRSTUVWXYZ");
    let cs = Charset::from_spec("letters").unwrap();
    assert_eq!(cs.len(), 52);
    let cs = Charset::from_spec("cyrillic_upper").unwrap();
    assert_eq!(cs.len(), 33);
    assert!(cs.index_of('Ё').is_some());
}

#[test]
fn empty_spec_message_quotes_the_spec() {
    let e = Charset::from_spec(" + ").err().unwrap();
    assert_eq!(e, "empty charset from spec: \" + \"");
    let e = Charset::from_spec("\t").err().unwrap();
    assert_eq!(e, "empty charset from spec: \"\\t\"");
}

#[test]
fn observed_without_family_errors() {
    assert!(Charset::from_observed("!?".chars()).is_err());
    assert!(Charset::from_observed("".chars()).is_err());
}

#[test]
fn families_are_described() {
    let cs = Charset::from_spec("digits").unwrap();
    assert_eq!(cs.describe_families(), "digits");
    let cs = Charset::from_spec("lower+upper+cyrillic+cyrillic_upper").unwrap();
    assert_eq!(
        cs.describe_families(),
        "latin lowercase, latin uppercase, cyrillic lowercase, cyrillic uppercase"
    );
    let cs = Charset::from_chars("!?");
    assert_eq!(cs.describe_families(), "custom set");
}

#[test]
fn classes_and_characters_correspond() {
    let cs = Charset::from_spec("cyrillic+digits").unwrap();
    for i in 0..cs.len() {
        let c = cs.char_at(i);
        assert_eq!(cs.index_of(c), Some(i));
    }
    assert!(!cs.is_empty());
    assert!(Charset::from_chars("").is_empty());
}

#[test]
fn saved_charset_reloads() {
    let cs = Charset::from_spec("digits+abc+digits").unwrap();
    let again = Charset::from_chars(&cs.as_chars());
    assert_eq!(again.as_chars(), cs.as_chars());
    assert_eq!(again.clone().as_chars(), "0123456789abc");
}
