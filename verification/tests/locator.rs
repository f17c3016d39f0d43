use markdown_inspector::chars::{chars_of, contains};
use markdown_inspector::locate::{first_containing, is_number_text, number_of};
use markdown_inspector::{find_section, parse_headings, Heading};

fn heading(line_number: usize, level: u8, text: &str) -> Heading {
    Heading { line_number, level, text: text.to_string() }
}

#[test]
fn test_find_section_by_line() {
    let headings = vec![
        Heading {
            line_number: 1,
            level: 1,
            text: "Title".into(),
        },
        Heading {
            line_number: 5,
            level: 2,
            text: "Section".into(),
        },
    ];

    let found = find_section(&headings, "5");
    assert!(found.is_some());
    assert_eq!(found.unwrap().text, "Section");
}

#[test]
fn test_find_section_by_text() {
    let headings = vec![
        Heading {
            line_number: 1,
            level: 1,
            text: "Title".into(),
        },
        Heading {
            line_number: 5,
            level: 2,
            text: "My Section".into(),
        },
    ];

    // Exact match
    let found = find_section(&headings, "My Section");
    assert!(found.is_some());

    // Partial match
    let found = find_section(&headings, "section");
    assert!(found.is_some());
    assert_eq!(found.unwrap().text, "My Section");
}

#[test]
fn numeric_lookup_in_parsed_headings() {
    let headings =
        parse_headings("# Title\n\nSome text\n\n## Section 1\n\nMore text\n\n### Subsection\n");
    assert_eq!(find_section(&headings, "5"), Some(&headings[1]));
    assert_eq!(find_section(&headings, "5").unwrap().text, "Section 1");
    assert_eq!(find_section(&headings, "9"), Some(&headings[2]));
    assert_eq!(find_section(&headings, "2"), None);
    assert_eq!(find_section(&headings, "0"), None);
}

#[test]
fn exact_match_comes_before_substring_match() {
    let headings = vec![heading(1, 1, "Title"), heading(5, 2, "My Section")];
    assert_eq!(find_section(&headings, "My Section"), Some(&headings[1]));
    assert_eq!(find_section(&headings, "section"), Some(&headings[1]));

    let headings = vec![heading(1, 1, "Setup Guide"), heading(4, 2, "Setup")];
    assert_eq!(find_section(&headings, "Setup"), Some(&headings[1]));
    assert_eq!(find_section(&headings, "setup"), Some(&headings[0]));
}

#[test]
fn first_of_several_matches_wins() {
    let headings = vec![heading(1, 1, "Notes"), heading(3, 2, "Notes"), heading(7, 2, "More notes")];
    assert_eq!(find_section(&headings, "Notes"), Some(&headings[0]));
    assert_eq!(find_section(&headings, "NOTES"), Some(&headings[0]));
    assert_eq!(find_section(&headings, "more"), Some(&headings[2]));
}

#[test]
fn substring_match_ignores_letter_case_on_both_sides() {
    let headings = vec![heading(1, 1, "Title"), heading(5, 2, "INSTALLATION Steps")];
    assert_eq!(find_section(&headings, "installation"), Some(&headings[1]));
    assert_eq!(find_section(&headings, "Installation STEPS"), Some(&headings[1]));
    assert_eq!(find_section(&headings, "tITLE"), Some(&headings[0]));
    assert_eq!(find_section(&headings, "\u{c9}t\u{e9}"), None);

    let headings = vec![heading(2, 1, "\u{c9}T\u{c9} chaud")];
    assert_eq!(find_section(&headings, "\u{e9}t\u{e9}"), Some(&headings[0]));
}

#[test]
fn no_match_is_absent() {
    let headings = vec![heading(1, 1, "Title"), heading(5, 2, "My Section")];
    assert_eq!(find_section(&headings, "missing"), None);
    assert_eq!(find_section(&headings, "Title "), None);
    assert_eq!(find_section(&[], "Title"), None);
    assert_eq!(find_section(&[], "1"), None);
}

#[test]
fn empty_query_matches_the_first_heading() {
    let headings = vec![heading(1, 1, "Title"), heading(5, 2, "")];
    assert_eq!(find_section(&headings, ""), Some(&headings[1]));
    let headings = vec![heading(1, 1, "Title"), heading(5, 2, "Other")];
    assert_eq!(find_section(&headings, ""), Some(&headings[0]));
    assert_eq!(find_section(&[], ""), None);
}

#[test]
fn number_query_never_matches_by_text() {
    let headings = vec![heading(1, 1, "5"), heading(5, 2, "Five")];
    assert_eq!(find_section(&headings, "5"), Some(&headings[1]));

    let headings = vec![heading(1, 1, "5"), heading(3, 2, "Chapter 7")];
    assert_eq!(find_section(&headings, "5"), None);
    assert_eq!(find_section(&headings, "7"), None);
    assert_eq!(find_section(&headings, "1"), Some(&headings[0]));
}

#[test]
fn number_query_may_have_a_plus_and_leading_zeros() {
    let headings = vec![heading(1, 1, "Title"), heading(5, 2, "+5"), heading(12, 2, "005")];
    assert_eq!(find_section(&headings, "+5"), Some(&headings[1]));
    assert_eq!(find_section(&headings, "005"), Some(&headings[1]));
    assert_eq!(find_section(&headings, "+012"), Some(&headings[2]));
}

#[test]
fn number_too_large_for_a_line_names_nothing() {
    let huge = "340282366920938463463374607431768211456";
    let headings = vec![heading(1, 1, huge), heading(5, 2, "Title")];
    assert_eq!(find_section(&headings, huge), None);
}

#[test]
fn near_numbers_are_texts() {
    let headings = vec![heading(1, 1, "-5"), heading(5, 2, "5 apples"), heading(7, 2, "++5")];
    assert_eq!(find_section(&headings, "-5"), Some(&headings[0]));
    assert_eq!(find_section(&headings, "5 "), Some(&headings[1]));
    assert_eq!(find_section(&headings, "++5"), Some(&headings[2]));
    assert_eq!(find_section(&headings, "+"), Some(&headings[2]));
    assert_eq!(find_section(&headings, " 5"), None);
    assert_eq!(find_section(&headings, "\u{0665}"), None);
}

#[test]
fn repeated_calls_give_the_same_heading() {
    let headings = vec![heading(1, 1, "Title"), heading(5, 2, "My Section")];
    for query in ["5", "section", "My Section", "missing", ""] {
        assert_eq!(find_section(&headings, query), find_section(&headings, query));
    }
}

#[test]
fn numbers_are_read_as_the_standard_library_reads_them() {
    let queries = [
        "0", "7", "42", "+42", "007", "+0", "18446744073709551615", "4294967295", "", "+", "-",
        "-1", "++1", "1+", "1 ", " 1", "1_000", "0x10", "1e3", "12a", "\u{0661}", "१",
    ];
    for query in queries {
        let chars = chars_of(query);
        let expected = query.parse::<usize>().ok();
        let got = if is_number_text(&chars) { number_of(&chars) } else { None };
        assert_eq!(got, expected, "number of {:?}", query);
        assert_eq!(is_number_text(&chars), expected.is_some(), "is {:?} a number", query);
    }
}

#[test]
fn numbers_beyond_the_machine_word_are_numbers_without_a_value() {
    for query in ["18446744073709551616", "99999999999999999999999999", "+184467440737095516150"] {
        let chars = chars_of(query);
        assert!(is_number_text(&chars));
        assert_eq!(number_of(&chars), None);
    }
    let chars = chars_of("18446744073709551615");
    assert_eq!(number_of(&chars), usize::try_from(18446744073709551615_u64).ok());
}

#[test]
fn substring_search_is_that_of_the_standard_library() {
    let cases = [
        ("", ""),
        ("abc", ""),
        ("", "a"),
        ("abc", "abc"),
        ("abc", "bc"),
        ("abc", "ab"),
        ("abc", "b"),
        ("abc", "abcd"),
        ("abc", "ac"),
        ("aaab", "aab"),
        ("abababc", "ababc"),
        ("my section", "section"),
        ("h\u{e9}llo", "\u{e9}l"),
    ];
    for (hay, needle) in cases {
        assert_eq!(
            contains(&chars_of(hay), &chars_of(needle)),
            hay.contains(needle),
            "{:?} in {:?}",
            needle,
            hay
        );
    }
}

#[test]
fn first_text_that_holds_the_needle() {
    let texts = vec![chars_of("title"), chars_of("my section"), chars_of("section two")];
    assert_eq!(first_containing(&texts, &chars_of("section")), Some(1));
    assert_eq!(first_containing(&texts, &chars_of("two")), Some(2));
    assert_eq!(first_containing(&texts, &chars_of("t")), Some(0));
    assert_eq!(first_containing(&texts, &chars_of("")), Some(0));
    assert_eq!(first_containing(&texts, &chars_of("Section")), None);
    assert_eq!(first_containing(&Vec::new(), &chars_of("")), None);
}
