use charsplit::{titlecase, CharString};

#[test]
fn take_substrings() {
    let string = "Tür, Straße, Москва";
    let char_string = CharString::new(&string);

    assert_eq!(char_string.substr(0, 3), "Tür");
    assert_eq!(char_string.substr(5, 11), "Straße");
    assert_eq!(char_string.substr(13, 19), "Москва");
}

#[test]
fn take_prefixes() {
    let string = "Tür, Straße, Москва";
    let char_string = CharString::new(&string);

    assert_eq!(char_string.prefix(11), "Tür, Straße");
    assert_eq!(char_string.prefix(19), "Tür, Straße, Москва");
    assert_eq!(char_string.prefix(0), "");
}

#[test]
fn take_suffixes() {
    let string = "Tür, Straße, Москва";
    let char_string = CharString::new(&string);

    assert_eq!(char_string.suffix(11), ", Москва");
    assert_eq!(char_string.suffix(19), "");
    assert_eq!(char_string.suffix(0), "Tür, Straße, Москва");
}

#[test]
fn get_length() {
    let string = "öüä";
    let char_string = CharString::new(&string);

    assert_eq!(char_string.len(), 3);
}

#[test]
fn byte_offsets_follow_character_widths() {
    let char_string = CharString::new("aü€😀b");
    assert_eq!(char_string.len(), 5);
    assert_eq!(char_string.num_bytes(), 11);
    assert_eq!(char_string.char2byte(0), 0);
    assert_eq!(char_string.char2byte(1), 1);
    assert_eq!(char_string.char2byte(2), 3);
    assert_eq!(char_string.char2byte(3), 6);
    assert_eq!(char_string.char2byte(4), 10);
    assert_eq!(char_string.char2byte(5), 11);
    assert_eq!(char_string.substr(2, 4), "€😀");
}

#[test]
fn empty_text() {
    let char_string = CharString::new("");
    assert_eq!(char_string.len(), 0);
    assert_eq!(char_string.num_bytes(), 0);
    assert_eq!(char_string.prefix(0), "");
    assert_eq!(char_string.suffix(0), "");
}

#[test]
fn titlecase_uppercases_first_character() {
    assert_eq!(titlecase("tür"), "Tür");
    assert_eq!(titlecase("Haus"), "Haus");
    assert_eq!(titlecase(""), "");
    assert_eq!(titlecase("ßa"), "SSa");
    assert_eq!(titlecase("ölkanne"), "Ölkanne");
}
