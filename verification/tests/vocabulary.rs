use meeting_recorder::json::{read, Json};
use meeting_recorder::vocabulary::{
    clean, correct, default_vocabulary, find_replacements, merge, normalize_whitespace,
    write_pattern, Corrector, Entry,
};
use regex::Regex;

fn corrector_with(user: Json) -> Corrector {
    Corrector::new(&user).unwrap()
}

fn default_corrector() -> Corrector {
    corrector_with(Json::Object(vec![]))
}

fn texts(list: &[&str]) -> Json {
    Json::Array(list.iter().map(|text| Json::Text(text.to_string())).collect())
}

#[test]
fn basic_mishearing_fix() {
    let c = default_corrector();
    assert_eq!(c.apply("I use Omarchi on my laptop"), "I use Omarchy on my laptop");
}

#[test]
fn case_normalisation() {
    let c = default_corrector();
    assert_eq!(c.apply("I pushed it to github"), "I pushed it to GitHub");
}

#[test]
fn multi_word_variant_with_varying_whitespace() {
    let c = default_corrector();
    assert_eq!(c.apply("open  way   bar"), "open  Waybar");
    assert_eq!(c.apply("open way bar"), "open Waybar");
}

#[test]
fn no_match_inside_a_domain() {
    let c = default_corrector();
    assert_eq!(c.apply("check omarchi.example.com"), "check omarchi.example.com");
}

#[test]
fn no_match_inside_a_path() {
    let c = default_corrector();
    assert_eq!(c.apply("it lives in /usr/omarchi"), "it lives in /usr/omarchi");
}

#[test]
fn no_match_inside_a_hyphenation() {
    let c = default_corrector();
    assert_eq!(c.apply("the pre-omarchi days"), "the pre-omarchi days");
}

#[test]
fn no_match_inside_a_word() {
    let c = default_corrector();
    // "Omarchy" is a real prefix here, but "Omarchyland" is not the term.
    assert_eq!(c.apply("Omarchyland is fictional"), "Omarchyland is fictional");
}

#[test]
fn longest_match_wins() {
    let c = default_corrector();
    // "Arch Linox" beats "Linux" (from "Linox") matching only the tail.
    assert_eq!(c.apply("I run Arch Linox"), "I run Arch Linux");
}

#[test]
fn user_vocabulary_merge() {
    let c = corrector_with(Json::Object(vec![(
        "Jankeesvw".to_owned(),
        texts(&["Yankee's view", "Jankie's view"]),
    )]));
    assert_eq!(c.apply("built by Yankee's view"), "built by Jankeesvw");
    // Defaults still work alongside the user's own terms.
    assert_eq!(c.apply("running Omarchi"), "running Omarchy");
}

#[test]
fn user_vocabulary_can_extend_a_default_term() {
    let c = corrector_with(Json::Object(vec![("Omarchy".to_owned(), texts(&["Omarshee"]))]));
    assert_eq!(c.apply("I love Omarshee"), "I love Omarchy");
    // The built-in variants for that term are kept, not replaced.
    assert_eq!(c.apply("I love Omaki"), "I love Omarchy");
}

#[test]
fn malformed_user_entries_are_ignored() {
    let c = corrector_with(Json::Object(vec![
        ("".to_owned(), texts(&["Empty term"])),
        ("Fine".to_owned(), Json::Text("not a list".to_owned())),
        (
            "Good".to_owned(),
            Json::Array(vec![
                Json::Text("Good variant".to_owned()),
                Json::Number(Some(42)),
                Json::Null,
            ]),
        ),
    ]));
    // The one well-formed entry still works, and the non-string entries
    // inside its list are dropped rather than poisoning the whole term.
    assert_eq!(c.apply("say Good variant"), "say Good");
    // The malformed ones never made it into the pattern.
    assert_eq!(c.apply("say Empty term"), "say Empty term");
    assert_eq!(c.apply("say not a list"), "say not a list");
}

#[test]
fn not_a_vocabulary_object_is_ignored() {
    let c = corrector_with(texts(&["not", "an", "object"]));
    assert_eq!(c.apply("running Omarchi"), "running Omarchy");
}

#[test]
fn marks_around_a_match_decide() {
    let c = default_corrector();
    for (heard, corrected) in [
        ("Omarchi.", "Omarchy."),
        ("Omarchi. Next", "Omarchy. Next"),
        ("Omarchi.x", "Omarchi.x"),
        ("Omarchi's", "Omarchi's"),
        ("(Omarchi)", "(Omarchy)"),
        (".Omarchi", ".Omarchi"),
        ("a@Omarchi", "a@Omarchi"),
        ("Omarchi_", "Omarchi_"),
        ("éOmarchi é Omarchi", "éOmarchi é Omarchy"),
        ("A.U.R. and a u\u{a0}r", "AUR and AUR"),
        ("", ""),
    ] {
        assert_eq!(c.apply(heard), corrected);
        assert_eq!(correct(&c, heard), corrected);
    }
}

#[test]
fn every_default_term_keeps_its_spelling_and_no_way_of_hearing_is_shared() {
    let entries = default_vocabulary();
    assert_eq!(entries.len(), 52);
    let c = default_corrector();
    let mut count = 0;
    for entry in &entries {
        assert_eq!(c.apply(&entry.term), entry.term);
        assert_eq!(c.apply(&entry.term.to_uppercase()), entry.term);
        for heard in &entry.heard {
            count += 1;
            assert_eq!(c.apply(heard), entry.term);
        }
    }
    assert_eq!(count, 92);
}

#[test]
fn a_vocabulary_is_cleaned() {
    let user = read(r#"{" A ":[" b ",""," ",3],"A":["c"],"x":{},"  ":["d"]}"#).unwrap();
    let entries = clean(&user);
    assert_eq!(entries.len(), 1);
    assert_eq!(entries[0].term, "A");
    assert_eq!(entries[0].heard, ["c"]);
    let merged = merge(&Json::Object(vec![
        ("sudo".to_owned(), texts(&[" soo  doo "])),
        ("New".to_owned(), texts(&[])),
    ]));
    assert_eq!(merged.len(), 53);
    assert_eq!(merged[52].term, "New");
    let sudo = merged.iter().find(|entry| entry.term == "sudo").unwrap();
    assert_eq!(sudo.heard, ["soo  doo"]);
}

fn entry(term: &str, heard: &[&str]) -> Entry {
    Entry {
        term: term.to_owned(),
        heard: heard.iter().map(|text| text.to_string()).collect(),
    }
}

#[test]
fn a_pattern_tries_the_longest_first_and_takes_marks_as_they_are() {
    let list = find_replacements(&vec![entry("A+", &["a  plus", "ah"]), entry("B", &["AH", " "])]);
    let pairs: Vec<(&str, &str)> = list
        .iter()
        .map(|replacement| (replacement.heard.as_str(), replacement.term.as_str()))
        .collect();
    assert_eq!(pairs, [("a+", "A+"), ("a plus", "A+"), ("ah", "B"), ("b", "B")]);
    assert_eq!(write_pattern(&list), r"(?i:a\s+plus|a\+|ah|b)");
    assert_eq!(write_pattern(&vec![]), r"\z\A");
}

#[test]
fn parts_that_stand_free_and_are_known_are_rewritten() {
    let c = corrector_with(Json::Object(vec![("AB".to_owned(), texts(&["a.b"]))]));
    assert_eq!(c.apply("A.b axb ab"), "AB axb AB");
    assert_eq!(c.rewrite("A.b axb xa.b", &vec![0, 4, 9]), "AB axb xa.b");
    assert_eq!(c.rewrite("A.b axb", &vec![]), "A.b axb");
}

#[test]
fn a_word_inside_a_match_that_does_not_stand_free_is_rewritten() {
    let c = default_corrector();
    assert_eq!(c.apply("I search Linox"), "I search Linux");
    assert_eq!(c.apply("pre-Arch Linox"), "pre-Arch Linux");
    assert_eq!(c.apply("Arch Linoxes, arch linox"), "Arch Linoxes, Arch Linux");
    assert_eq!(c.rewrite("I search Linox", &vec![4, 9]), "I search Linux");
    assert_eq!(c.rewrite("I search Linox", &vec![4]), "I search Linox");
}

#[test]
fn a_word_is_rewritten_where_a_longer_phrase_does_not_stand_free() {
    let c = corrector_with(Json::Object(vec![
        ("Zed".to_owned(), texts(&["zet"])),
        ("Zed Nine".to_owned(), texts(&["zet nein"])),
    ]));
    assert_eq!(c.apply("zet nein"), "Zed Nine");
    assert_eq!(c.apply("zet neins"), "Zed neins");
    assert_eq!(c.apply("zet  nein zet"), "Zed Nine Zed");
    assert_eq!(c.apply("zet nein-ish"), "Zed nein-ish");
}

#[test]
fn of_parts_that_overlap_the_first_is_rewritten() {
    let c = corrector_with(Json::Object(vec![
        ("P".to_owned(), texts(&["ula bula"])),
        ("Q".to_owned(), texts(&["bula cula"])),
    ]));
    assert_eq!(c.apply("ula bula cula"), "P cula");
    assert_eq!(c.apply("xula bula cula"), "xula Q");
    assert_eq!(c.rewrite("ula bula cula", &vec![0, 4]), "P cula");
}

#[test]
fn letters_beyond_ascii_are_matched_by_their_small_ones() {
    let c = corrector_with(Json::Object(vec![("Élan".to_owned(), texts(&["éllan"]))]));
    assert_eq!(c.apply("ÉLLAN, éllan, xÉllan"), "Élan, Élan, xÉllan");
}

#[test]
fn a_corrector_is_there_where_its_pattern_was_compiled() {
    let list = || find_replacements(&vec![entry("AB", &["a.b"])]);
    let pattern = write_pattern(&list());
    assert_eq!(pattern, r"(?i:a\.b|ab)");
    assert!(Corrector::with_pattern(list(), None).is_none());
    let c = Corrector::with_pattern(list(), Regex::new(&pattern).ok()).unwrap();
    assert_eq!(c.apply("A.b axb ab"), "AB axb AB");
}

#[test]
fn a_vocabulary_that_is_too_large_has_no_corrector() {
    let long = "é".repeat(2_000);
    let members = (0..2_000).map(|i| (format!("{i}{long}"), texts(&[]))).collect();
    assert!(Corrector::new(&Json::Object(members)).is_none());
}

#[test]
fn white_space_is_normalised() {
    assert_eq!(normalize_whitespace(" a \t b\n\u{a0}c "), "a b c");
    assert_eq!(normalize_whitespace(" \n"), "");
}
