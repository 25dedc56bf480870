use charsplit::{cut_off_fugen_s, CharSplitter, CharString, ScoreTable, SCORE_ONE};

fn table(entries: &[(&str, i64)]) -> ScoreTable {
    let mut t = ScoreTable::new();
    for (k, v) in entries {
        t.insert(k.to_string(), *v);
    }
    t
}

fn splitter(
    prefix: &[(&str, i64)],
    infix: &[(&str, i64)],
    suffix: &[(&str, i64)],
) -> CharSplitter {
    CharSplitter::new(table(prefix), table(infix), table(suffix))
}

fn empty() -> CharSplitter {
    splitter(&[], &[], &[])
}

#[test]
fn haustuer_splits_between_haus_and_tuer() {
    let sp = splitter(&[("tür", 900_000_000)], &[], &[("haus", 800_000_000)]);
    assert_eq!(sp.split("Haustür"), ("Haus", "tür"));
}

#[test]
fn uppercase_word_is_looked_up_in_lowercase() {
    let sp = splitter(&[("tür", 900_000_000)], &[], &[("haus", 800_000_000)]);
    assert_eq!(sp.split("HAUSTÜR"), ("HAUS", "TÜR"));
    assert_eq!(sp.find_split_indices("HAUSTÜR"), (4, 4));
}

#[test]
fn hyphen_splits_at_last_hyphen() {
    let sp = empty();
    assert_eq!(sp.split("Nord-Süd-Bahn"), ("Nord-Süd", "Bahn"));
    assert_eq!(sp.split("Ab-c"), ("Ab", "c"));
    assert_eq!(sp.split("-"), ("", ""));
    assert_eq!(sp.find_split_indices("Nord-Süd-Bahn"), (8, 9));
}

#[test]
fn short_words_are_not_split() {
    let sp = splitter(&[("tür", 900_000_000)], &[], &[("haus", 800_000_000)]);
    assert_eq!(sp.split("Haus"), ("Haus", "Haus"));
    assert_eq!(sp.split("Türen"), ("Türen", "Türen"));
    assert_eq!(sp.split("a"), ("a", "a"));
    assert_eq!(sp.split(""), ("", ""));
    assert_eq!(sp.find_split_indices("Türen"), (5, 0));
}

#[test]
fn parts_rebuild_the_word() {
    let sp = splitter(&[("tür", 900_000_000)], &[], &[("haus", 800_000_000)]);
    for word in ["Haustür", "Donaudampfschiff", "Arbeitsamt", "Straßenbahn"] {
        let (l, r) = sp.split(word);
        assert_eq!(format!("{}{}", l, r), word);
    }
    let (l, r) = sp.split("Ost-West");
    assert_eq!(format!("{}-{}", l, r), "Ost-West");
}

#[test]
fn equal_scores_pick_the_leftmost_boundary() {
    let sp = splitter(&[], &[], &[("abc", 500_000_000), ("abcd", 500_000_000)]);
    assert_eq!(sp.split("abcdefg"), ("abc", "defg"));
    let text = CharString::new("abcdefg");
    assert_eq!(sp.boundary_score_at(&text, 3), sp.boundary_score_at(&text, 4));
    assert_eq!(sp.best_split_position(&text), Some(3));
}

#[test]
fn left_part_drops_linking_s() {
    let sp = splitter(&[("amt", 500_000_000)], &[], &[("arbeit", 700_000_000)]);
    assert_eq!(sp.split("Arbeitsamt"), ("Arbeits", "amt"));
}

#[test]
fn left_part_of_three_keeps_its_s() {
    let sp = splitter(&[("bcd", 500_000_000)], &[], &[("ot", 900_000_000)]);
    assert_eq!(sp.split("otsabcd"), ("otsa", "bcd"));
}

#[test]
fn empty_tables_cut_after_three_characters() {
    let sp = empty();
    assert_eq!(sp.split("abcdefgh"), ("abc", "defgh"));
    assert_eq!(sp.split("Schifffahrt"), ("Sch", "ifffahrt"));
    let text = CharString::new("abcdefgh");
    for n in 3..6 {
        assert_eq!(sp.boundary_score_at(&text, n), -2 * SCORE_ONE as i128);
    }
}

#[test]
fn infix_score_is_least_match() {
    let sp = splitter(&[], &[("def", 300_000_000), ("defg", 200_000_000)], &[]);
    let text = CharString::new("abcdefg");
    assert_eq!(sp.compute_in_slice_prob(&text, 3), 200_000_000);
    let sp = splitter(&[], &[("def", -500_000_000), ("defg", 700_000_000)], &[]);
    assert_eq!(sp.compute_in_slice_prob(&text, 3), -500_000_000);
}

#[test]
fn infix_score_above_one_counts_as_zero() {
    let sp = splitter(&[], &[("def", 1_500_000_000)], &[]);
    let text = CharString::new("abcdefg");
    assert_eq!(sp.compute_in_slice_prob(&text, 3), 0);
    let sp = splitter(&[], &[("def", SCORE_ONE)], &[]);
    assert_eq!(sp.compute_in_slice_prob(&text, 3), SCORE_ONE);
}

#[test]
fn infix_score_without_match_is_zero() {
    let sp = empty();
    let text = CharString::new("abcdefg");
    assert_eq!(sp.compute_in_slice_prob(&text, 3), 0);
    assert_eq!(sp.compute_in_slice_prob(&text, 5), 0);
}

#[test]
fn boundary_score_formula() {
    let sp = splitter(
        &[("tür", 900_000_000)],
        &[("tür", 250_000_000)],
        &[("haus", 800_000_000)],
    );
    let text = CharString::new("haustür");
    assert_eq!(sp.boundary_score_at(&text, 4), 1_450_000_000);
    assert_eq!(sp.boundary_score_at(&text, 3), -2_000_000_000);
}

#[test]
fn right_part_drops_linking_s() {
    let sp = splitter(&[("amt", 600_000_000)], &[], &[]);
    let text = CharString::new("abcamts");
    assert_eq!(sp.boundary_score_at(&text, 3), -400_000_000);
}

#[test]
fn no_candidate_in_short_text() {
    let sp = empty();
    assert_eq!(sp.best_split_position(&CharString::new("abcde")), None);
    assert_eq!(sp.best_split_position(&CharString::new("abcdef")), Some(3));
}

#[test]
fn linking_s_is_cut_off() {
    assert_eq!(cut_off_fugen_s("arbeits"), "arbeit");
    assert_eq!(cut_off_fugen_s("wegs"), "weg");
    assert_eq!(cut_off_fugen_s("volks"), "volk");
    assert_eq!(cut_off_fugen_s("wahls"), "wahl");
    assert_eq!(cut_off_fugen_s("lebens"), "leben");
    assert_eq!(cut_off_fugen_s("haus"), "haus");
    assert_eq!(cut_off_fugen_s("als"), "als");
    assert_eq!(cut_off_fugen_s("ts"), "t");
    assert_eq!(cut_off_fugen_s("s"), "s");
    assert_eq!(cut_off_fugen_s(""), "");
}

#[test]
fn table_lookup() {
    let mut t = ScoreTable::new();
    assert_eq!(t.get("haus"), None);
    t.insert("haus".to_string(), 3);
    t.insert("haus".to_string(), 4);
    assert_eq!(t.get("haus"), Some(4));
    assert_eq!(t.get("Haus"), None);
}
