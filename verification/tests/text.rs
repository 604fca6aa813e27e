use bazaar_tui::util::chars::{
    char_width, from_chars, is_whitespace, to_ascii_lowercase, to_ascii_uppercase, to_chars,
};
use bazaar_tui::util::words::{join_words, split_fields, split_words};
use bazaar_tui::util::{capitalize, capitalize_after, normalize, pretty_name, uppercase_first};

fn chars(s: &str) -> Vec<char> {
    s.chars().collect()
}

fn strings(parts: &[Vec<char>]) -> Vec<String> {
    parts.iter().map(|p| p.iter().collect()).collect()
}

/// The normal form computed with the string methods of the standard library.
fn expected_normal_form(s: &str) -> String {
    s.to_ascii_lowercase()
        .replace(['_', ':'], " ")
        .split_whitespace()
        .collect::<Vec<_>>()
        .join(" ")
}

/// The display name computed with the string methods of the standard library.
fn expected_display_name(id: &str) -> String {
    let mut parts = id.split(':');
    let base = parts
        .next()
        .unwrap_or_default()
        .split('_')
        .map(|w| {
            let lower = w.to_ascii_lowercase();
            let mut rest = lower.chars();
            match rest.next() {
                Some(first) => first.to_uppercase().collect::<String>() + rest.as_str(),
                None => String::new(),
            }
        })
        .collect::<Vec<_>>()
        .join(" ");
    match parts.next() {
        Some(tail) if !tail.is_empty() => format!("{base} ({tail})"),
        _ => base,
    }
}

const SAMPLES: [&str; 24] = [
    "",
    " ",
    "_",
    ":",
    "a",
    "A",
    "ENCHANTED_BOOK",
    "LOG:2",
    "  Hello   World  ",
    "a__b::c",
    "INK_SACK:3",
    "\tTabbed\nLines\r\n",
    "a\u{00A0}b",
    "a\u{3000}b\u{2003}c",
    "\u{0085}x\u{1680}",
    "ÉCLAIR_AU_CHOCOLAT",
    "éclair",
    "straße:ß",
    "ǆabc_ǆ",
    "x:y:z",
    ":tail",
    "base:",
    "_lead_trail_",
    "MiXeD_cAsE:TaIl_X",
];

#[test]
fn pretty_name_capitalizes_words() {
    assert_eq!(pretty_name("ENCHANTED_BOOK"), "Enchanted Book");
}

#[test]
fn pretty_name_puts_the_tail_in_parentheses() {
    assert_eq!(pretty_name("LOG:2"), "Log (2)");
}

#[test]
fn pretty_name_takes_the_second_field_only_as_tail() {
    assert_eq!(pretty_name("x:y:z"), "X (y)");
    assert_eq!(pretty_name("base:"), "Base");
    assert_eq!(pretty_name(":tail"), " (tail)");
    assert_eq!(pretty_name(""), "");
}

#[test]
fn pretty_name_keeps_empty_words() {
    assert_eq!(pretty_name("A__B"), "A  B");
    assert_eq!(pretty_name("_lead_trail_"), " Lead Trail ");
}

#[test]
fn pretty_name_uses_the_unicode_uppercase_of_a_first_character() {
    assert_eq!(pretty_name("éclair"), "Éclair");
    assert_eq!(pretty_name("ßx"), "SSx");
}

#[test]
fn pretty_name_agrees_with_the_standard_string_methods() {
    for s in SAMPLES {
        assert_eq!(pretty_name(s), expected_display_name(s), "for {s:?}");
    }
}

#[test]
fn capitalize_lowers_the_rest() {
    assert_eq!(capitalize(&chars("bOOK")), chars("Book"));
    assert_eq!(capitalize(&chars("")), chars(""));
    assert_eq!(capitalize(&chars("2x")), chars("2x"));
}

#[test]
fn normalize_lowers_and_joins_words() {
    assert_eq!(normalize("  ENCHANTED__Book:2 "), "enchanted book 2");
    assert_eq!(normalize("Enchanted Book"), "enchanted book");
    assert_eq!(normalize(""), "");
    assert_eq!(normalize(" _ : "), "");
}

#[test]
fn normalize_keeps_other_characters() {
    assert_eq!(normalize("A-B"), "a-b");
    assert_eq!(normalize("Log (2)"), "log (2)");
    assert_eq!(normalize("ÉCLAIR Au"), "Éclair au");
}

#[test]
fn normalize_treats_unicode_whitespace_as_separators() {
    assert_eq!(normalize("a\u{00A0}b"), "a b");
    assert_eq!(normalize("a\u{3000}b\u{2003}c"), "a b c");
    assert_eq!(normalize("\u{0085}x\u{1680}"), "x");
}

#[test]
fn normalize_is_idempotent() {
    for s in SAMPLES {
        let once = normalize(s);
        assert_eq!(normalize(&once), once, "for {s:?}");
    }
}

#[test]
fn normalize_of_letters_digits_and_separators_is_plain() {
    for s in ["ENCHANTED_BOOK", "LOG:2", "  Hello   World  ", "a__b::c", "INK_SACK:3"] {
        let n = normalize(s);
        assert!(n.chars().all(|c| c.is_ascii_lowercase() || c.is_ascii_digit() || c == ' '));
        assert!(!n.starts_with(' ') && !n.ends_with(' ') && !n.contains("  "));
    }
}

#[test]
fn normalize_agrees_with_the_standard_string_methods() {
    for s in SAMPLES {
        assert_eq!(normalize(s), expected_normal_form(s), "for {s:?}");
    }
}

#[test]
fn normalize_never_lengthens_a_text() {
    for s in SAMPLES {
        assert!(normalize(s).chars().count() <= s.chars().count());
    }
}

#[test]
fn whitespace_is_what_the_standard_library_calls_whitespace() {
    for code in 0..=0x10FFFFu32 {
        if let Some(c) = char::from_u32(code) {
            assert_eq!(is_whitespace(c), c.is_whitespace(), "for U+{code:04X}");
        }
    }
}

#[test]
fn ascii_case_mapping_is_that_of_the_standard_library() {
    for code in 0..=0x10FFFFu32 {
        if let Some(c) = char::from_u32(code) {
            assert_eq!(to_ascii_lowercase(c), c.to_ascii_lowercase());
            assert_eq!(to_ascii_uppercase(c), c.to_ascii_uppercase());
        }
    }
}

#[test]
fn char_width_is_the_length_in_utf8() {
    for code in 0..=0x10FFFFu32 {
        if let Some(c) = char::from_u32(code) {
            assert_eq!(char_width(c), c.len_utf8());
        }
    }
}

#[test]
fn chars_and_strings_convert_both_ways() {
    for s in SAMPLES {
        assert_eq!(to_chars(s), chars(s));
        assert_eq!(from_chars(&chars(s)), s);
    }
}

#[test]
fn split_words_gives_the_runs_without_whitespace() {
    assert_eq!(strings(&split_words(&chars("  ab  c\td "))), ["ab", "c", "d"]);
    assert!(split_words(&chars("   ")).is_empty());
    assert!(split_words(&chars("")).is_empty());
    for s in SAMPLES {
        let expected: Vec<String> = s.split_whitespace().map(String::from).collect();
        assert_eq!(strings(&split_words(&chars(s))), expected);
    }
}

#[test]
fn split_fields_keeps_empty_fields() {
    assert_eq!(strings(&split_fields(&chars("a__b_"), '_')), ["a", "", "b", ""]);
    assert_eq!(strings(&split_fields(&chars(""), '_')), [""]);
    for s in SAMPLES {
        let expected: Vec<String> = s.split(':').map(String::from).collect();
        assert_eq!(strings(&split_fields(&chars(s), ':')), expected);
    }
}

#[test]
fn join_words_puts_one_separator_between_neighbours() {
    assert_eq!(join_words(&vec![chars("a"), chars(""), chars("bc")], ' '), chars("a  bc"));
    assert_eq!(join_words(&vec![chars("solo")], ' '), chars("solo"));
    assert_eq!(join_words(&Vec::new(), ' '), chars(""));
}

#[test]
fn uppercase_first_maps_one_character() {
    assert_eq!(uppercase_first('a'), ['A']);
    assert_eq!(uppercase_first('A'), ['A']);
    assert_eq!(uppercase_first('1'), ['1']);
    assert_eq!(uppercase_first('é'), ['É']);
    assert_eq!(uppercase_first('ß'), ['S', 'S']);
    for code in 0..=0x10FFFFu32 {
        if let Some(c) = char::from_u32(code) {
            assert_eq!(uppercase_first(c), c.to_uppercase().collect::<Vec<char>>());
        }
    }
}

#[test]
fn capitalize_after_lowers_what_follows_the_first_character() {
    assert_eq!(capitalize_after(chars("SS"), &chars("ßETA")), chars("SSeta"));
    assert_eq!(capitalize_after(chars("B"), &chars("b")), chars("B"));
    assert_eq!(capitalize_after(chars("X"), &chars("")), chars("X"));
    assert_eq!(capitalize_after(chars(""), &chars("aBC")), chars("bc"));
}
