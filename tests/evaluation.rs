use charsplit::evaluation::judge_line;
use charsplit::{CharSplitter, ScoreTable};

fn haus_splitter() -> CharSplitter {
    let mut prefix = ScoreTable::new();
    prefix.insert("tür".to_string(), 900_000_000);
    let mut suffix = ScoreTable::new();
    suffix.insert("haus".to_string(), 800_000_000);
    CharSplitter::new(prefix, ScoreTable::new(), suffix)
}

#[test]
fn record_with_matching_head() {
    let sp = haus_splitter();
    assert_eq!(judge_line(&sp, "Haustür\tHaus\tTür"), Some(true));
    assert_eq!(judge_line(&sp, "  Haustür\tHaus\tTür \n"), Some(true));
}

#[test]
fn record_with_other_head() {
    let sp = haus_splitter();
    assert_eq!(judge_line(&sp, "Haustür\tHaus\tTüre"), Some(false));
    assert_eq!(judge_line(&sp, "Haustür\tHaus\ttür"), Some(false));
}

#[test]
fn record_with_wrong_field_count() {
    let sp = haus_splitter();
    assert_eq!(judge_line(&sp, "Haustür\tTür"), None);
    assert_eq!(judge_line(&sp, "Haustür"), None);
    assert_eq!(judge_line(&sp, "Haustür\tHaus\tTür\tx"), None);
    assert_eq!(judge_line(&sp, ""), None);
}

#[test]
fn record_with_hyphenated_compound() {
    let sp = haus_splitter();
    assert_eq!(judge_line(&sp, "Ost-west\tOst\tWest"), Some(true));
}

#[test]
fn record_with_empty_fields() {
    let sp = haus_splitter();
    assert_eq!(judge_line(&sp, "\t\t"), None);
    assert_eq!(judge_line(&sp, "x\t\tX"), Some(true));
}
