use material3_optimzer::extract::{
    extract_colors, locate_block, parse_entries, split_halves, Boundary, ExtractError,
};
use material3_optimzer::Material3BuilderExtractor;

const DOCUMENT: &str = "package com.example.ui.theme\nimport androidx.compose.ui.graphics.Color\n\nval md_theme_light_primary = Color(0xFF6750A4)\nval md_theme_light_onPrimary = Color(0xFFFFFFFF)\nval md_theme_light_secondary = Color(0xFF625B71)\nval md_theme_dark_primary = Color(0xFFD0BCFF)\nval md_theme_dark_onPrimary = Color(0xFF381E72)\nval md_theme_dark_scrim = Color(0xFF000000)\n\nval seed = Color(0xFF6750A4)\n";

const EVEN_DOCUMENT: &str = "// md_theme_light_primary and the rest\nval md_theme_light_primary = Color(0xFF6750A4)\nval md_theme_light_onPrimary = Color(0xFFFFFFFF)\n\nval md_theme_dark_primary = Color(0xFFD0BCFF)\nval md_theme_dark_scrim = Color(0xFF000000)\nval seed = Color(0xFF6750A4)\n";

#[test]
fn locate_block_gives_character_positions() {
    let text = "ab md_theme_light_primary x md_theme_dark_scrim y\nz";
    assert_eq!(locate_block(text), Ok((3, 49)));
}

#[test]
fn locate_block_counts_characters_not_bytes() {
    let text = "\u{e9} md_theme_light_primary md_theme_dark_scrim\n";
    assert_eq!(locate_block(text), Ok((2, 44)));
}

#[test]
fn locate_block_agrees_with_a_search_of_the_document() {
    let start = DOCUMENT.find("md_theme_light_primary").unwrap();
    let marker = DOCUMENT.find("md_theme_dark_scrim").unwrap();
    let end = marker + DOCUMENT[marker..].find('\n').unwrap();
    assert_eq!(start, 76);
    assert_eq!(locate_block(DOCUMENT), Ok((start, end)));
    assert_eq!(&DOCUMENT[end..end + 2], "\n\n");
}

#[test]
fn locate_block_takes_the_first_of_repeated_markers() {
    let text = "md_theme_light_primary md_theme_light_primary md_theme_dark_scrim\nmd_theme_dark_scrim\n";
    assert_eq!(locate_block(text), Ok((0, 65)));
}

#[test]
fn locate_block_reports_missing_start_marker() {
    let text = "val md_theme_dark_scrim = Color(0xFF000000)\n";
    assert_eq!(
        locate_block(text),
        Err(ExtractError::MarkerNotFound(Boundary::Start))
    );
}

#[test]
fn locate_block_reports_missing_end_marker() {
    let text = "val md_theme_light_primary = Color(0xFF6750A4)\n";
    assert_eq!(
        locate_block(text),
        Err(ExtractError::MarkerNotFound(Boundary::End))
    );
}

#[test]
fn locate_block_reports_missing_line_end() {
    let text = "md_theme_light_primary md_theme_dark_scrim = 1";
    assert_eq!(
        locate_block(text),
        Err(ExtractError::MarkerNotFound(Boundary::LineEnd))
    );
}

#[test]
fn locate_block_reports_start_missing_before_end_missing() {
    assert_eq!(
        locate_block(""),
        Err(ExtractError::MarkerNotFound(Boundary::Start))
    );
}

#[test]
fn locate_block_rejects_a_block_that_ends_before_it_starts() {
    let text = "md_theme_dark_scrim\nmd_theme_light_primary\n";
    assert_eq!(locate_block(text), Err(ExtractError::InvalidRegion));
}

#[test]
fn locate_block_accepts_end_marker_before_start_on_one_line() {
    let text = "md_theme_dark_scrim md_theme_light_primary\n";
    assert_eq!(locate_block(text), Ok((20, 42)));
}

#[test]
fn entry_names_follow_the_last_underscore() {
    let block = "val md_theme_light_primary = Color(0xFF6750A4)\nval md_theme_dark_onPrimaryContainer = Color(0xFF21005D)";
    let entries = parse_entries(block).unwrap();
    assert_eq!(entries.len(), 2);
    assert_eq!(entries[0].0, "primary");
    assert_eq!(entries[1].0, "onPrimaryContainer");
}

#[test]
fn entry_values_are_taken_verbatim() {
    let block = "  val md_a_first =Color(1)  \nval md_a_second = Color(2) // = note\n";
    let entries = parse_entries(block).unwrap();
    assert_eq!(
        entries,
        vec![("first", "Color(1)  "), ("second", " Color(2) // = note")]
    );
}

#[test]
fn entry_names_are_trimmed() {
    let block = "val md_theme_light_ \t primary \u{a0} = x";
    assert_eq!(parse_entries(block), Ok(vec![("primary", " x")]));
}

#[test]
fn lines_without_the_keyword_are_passed_over() {
    let block = "md_theme_light_primary = Color(1)\n// val no_entry = 1\n\n   \nvalue_x = 2\nvar a_b = 3\n\tval a_b = 4";
    assert_eq!(
        parse_entries(block),
        Ok(vec![("x", " 2"), ("b", " 4")])
    );
}

#[test]
fn carriage_returns_before_line_feeds_are_no_part_of_a_line() {
    let block = "val a_one = 1\r\nval a_two = 2\r\r\nval a_three = 3\r";
    assert_eq!(
        parse_entries(block),
        Ok(vec![("one", " 1"), ("two", " 2\r"), ("three", " 3\r")])
    );
}

#[test]
fn empty_block_has_no_entries() {
    assert_eq!(parse_entries(""), Ok(vec![]));
    assert_eq!(parse_entries("\n\n"), Ok(vec![]));
}

#[test]
fn declaration_without_underscore_is_malformed() {
    let block = "val a_b = 1\nval primary = Color(0xFF6750A4)\nval c_d = 2";
    assert_eq!(
        parse_entries(block),
        Err(ExtractError::MalformedDeclaration(
            "val primary = Color(0xFF6750A4)".to_string()
        ))
    );
}

#[test]
fn underscore_right_of_the_equals_sign_does_not_count() {
    let block = "val primary = md_color";
    assert_eq!(
        parse_entries(block),
        Err(ExtractError::MalformedDeclaration(
            "val primary = md_color".to_string()
        ))
    );
}

#[test]
fn declaration_without_equals_sign_is_malformed() {
    let block = "  val md_theme_light_primary\r\nval a_b = 1";
    assert_eq!(
        parse_entries(block),
        Err(ExtractError::MalformedDeclaration(
            "  val md_theme_light_primary".to_string()
        ))
    );
}

#[test]
fn first_malformed_declaration_is_reported() {
    let block = "val one = 1\nval two";
    assert_eq!(
        parse_entries(block),
        Err(ExtractError::MalformedDeclaration("val one = 1".to_string()))
    );
}

#[test]
fn split_halves_of_even_and_odd_lengths() {
    let four = [1, 2, 3, 4];
    assert_eq!(split_halves(&four), (&four[..2], &four[2..]));
    let three = [1, 2, 3];
    assert_eq!(split_halves(&three), (&three[..1], &three[1..]));
    let one = [7];
    assert_eq!(split_halves(&one), (&one[..0], &one[..]));
    let none: [u8; 0] = [];
    assert_eq!(split_halves(&none), (&none[..], &none[..]));
}

#[test]
fn block_starts_at_the_marker_so_its_line_is_no_declaration() {
    let entries = extract_colors(DOCUMENT).unwrap();
    assert_eq!(
        entries,
        vec![
            ("onPrimary", " Color(0xFFFFFFFF)"),
            ("secondary", " Color(0xFF625B71)"),
            ("primary", " Color(0xFFD0BCFF)"),
            ("onPrimary", " Color(0xFF381E72)"),
            ("scrim", " Color(0xFF000000)"),
        ]
    );
}

#[test]
fn even_number_of_declarations_splits_into_equal_halves() {
    let entries = extract_colors(EVEN_DOCUMENT).unwrap();
    assert_eq!(
        entries,
        vec![
            ("primary", " Color(0xFF6750A4)"),
            ("onPrimary", " Color(0xFFFFFFFF)"),
            ("primary", " Color(0xFFD0BCFF)"),
            ("scrim", " Color(0xFF000000)"),
        ]
    );
    let (light, dark) = split_halves(&entries);
    assert_eq!(light.len(), 2);
    assert_eq!(dark.len(), 2);
    assert_eq!(light[1], ("onPrimary", " Color(0xFFFFFFFF)"));
    assert_eq!(dark[0], ("primary", " Color(0xFFD0BCFF)"));
}

#[test]
fn extract_and_hands_over_both_halves() {
    let extractor = Material3BuilderExtractor::new(DOCUMENT.to_string());
    assert_eq!(extractor.text(), DOCUMENT);
    let names = extractor.extract_and(|light, dark| {
        (
            light.iter().map(|e| e.0.to_string()).collect::<Vec<String>>(),
            dark.iter().map(|e| e.0.to_string()).collect::<Vec<String>>(),
        )
    });
    assert_eq!(
        names,
        Ok((
            vec!["onPrimary".to_string(), "secondary".to_string()],
            vec![
                "primary".to_string(),
                "onPrimary".to_string(),
                "scrim".to_string()
            ],
        ))
    );
}

#[test]
fn extract_and_fails_without_start_marker() {
    let extractor =
        Material3BuilderExtractor::new("val md_theme_dark_scrim = Color(0)\n".to_string());
    let mut called = false;
    let r = extractor.extract_and(|_, _| {
        called = true;
    });
    assert_eq!(r, Err(ExtractError::MarkerNotFound(Boundary::Start)));
    assert!(!called);
}

#[test]
fn extract_colors_fails_on_malformed_declaration() {
    let text = "md_theme_light_primary\nval primary = Color(1)\nval md_theme_dark_scrim = Color(2)\n";
    assert_eq!(
        extract_colors(text),
        Err(ExtractError::MalformedDeclaration(
            "val primary = Color(1)".to_string()
        ))
    );
}

#[test]
fn messages_name_the_failure() {
    assert_eq!(
        ExtractError::MarkerNotFound(Boundary::Start).message(),
        "Error: The start marker md_theme_light_primary was not found."
    );
    assert_eq!(
        ExtractError::MarkerNotFound(Boundary::End).message(),
        "Error: The end marker md_theme_dark_scrim was not found."
    );
    assert_eq!(
        ExtractError::MarkerNotFound(Boundary::LineEnd).message(),
        "Error: The line of the end marker is not terminated."
    );
    assert_eq!(
        ExtractError::InvalidRegion.message(),
        "Error: The end marker closes before the start marker."
    );
    assert_eq!(
        ExtractError::MalformedDeclaration("val x".to_string()).message(),
        "Error: Malformed declaration: val x"
    );
}

#[test]
fn written_declaration_is_read_back() {
    let indent = " \t";
    let prefix = " md=theme_light";
    let name = "on Primary";
    let pad = " \u{2003}";
    let value = " Color(0xFF_FF = 1) ";
    let line = format!("{}val{}_{}{}={}", indent, prefix, name, pad, value);
    assert!(parse_entries(&line).is_err());
    let prefix = " md_theme_light";
    let line = format!("{}val{}_{}{}={}", indent, prefix, name, pad, value);
    assert_eq!(parse_entries(&line), Ok(vec![(name, value)]));
    let line = format!("val{}_{}{}={}", "", "", "", "");
    assert_eq!(parse_entries(&line), Ok(vec![("", "")]));
}

#[test]
fn found_block_starts_with_the_marker_and_ends_before_a_line_feed() {
    for text in [DOCUMENT, EVEN_DOCUMENT] {
        let (start, end) = locate_block(text).unwrap();
        assert!(start <= end);
        assert!(text[start..].starts_with("md_theme_light_primary"));
        assert_eq!(&text[end..end + 1], "\n");
        assert!(text[..end].ends_with("md_theme_dark_scrim = Color(0xFF000000)"));
    }
}
