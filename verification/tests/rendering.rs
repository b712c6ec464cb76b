use material3_optimzer::extract::{Boundary, ExtractError};
use material3_optimzer::render::{compose_output, construct_color_scheme, derive_namespace};
use material3_optimzer::{Material3BuilderExtractor, OptimzeResult};

const SOURCE: &str = "// md_theme_light_primary and the rest\nval md_theme_light_primary = Color(0xFF6750A4)\nval md_theme_light_onPrimary = Color(0xFFFFFFFF)\n\nval md_theme_dark_primary = Color(0xFFD0BCFF)\nval md_theme_dark_scrim = Color(0xFF000000)\nval seed = Color(0xFF6750A4)\n";

const THEME: &str = "package com.example.ui.theme.Theme.kt\nimport androidx.compose.ui.graphics.Color\nimport androidx.compose.material3.lightColorScheme\nimport androidx.compose.material3.darkColorScheme\nval LightColorScheme = lightColorScheme (\n primary =  Color(0xFF6750A4)\nonPrimary =  Color(0xFFFFFFFF))\nval DarkColorScheme = darkColorScheme (\n primary =  Color(0xFFD0BCFF)\nscrim =  Color(0xFF000000))";

const PATH: &str = "/home/project/app/src/main/kotlin/com/example/ui/theme/Theme.kt";

#[test]
fn scheme_of_one_entry() {
    assert_eq!(
        Material3BuilderExtractor::color_scheme(
            "lightColorScheme",
            &[("primary", "Color(0xFF123456)")]
        ),
        "lightColorScheme (\n primary = Color(0xFF123456))"
    );
    assert_eq!(
        construct_color_scheme("lightColorScheme", &[("primary", "Color(0xFF123456)")]),
        "lightColorScheme (\n primary = Color(0xFF123456))"
    );
}

#[test]
fn scheme_of_no_entries() {
    assert_eq!(construct_color_scheme("f", &[]), "f (\n )");
}

#[test]
fn scheme_of_several_entries_joins_with_line_feeds() {
    assert_eq!(
        construct_color_scheme("f", &[("a", "1"), ("b", " 2 "), ("c", "")]),
        "f (\n a = 1\nb =  2 \nc = )"
    );
}

#[test]
fn light_and_dark_schemes_name_their_builders() {
    let colors = [("primary", "Color(0xFF123456)"), ("scrim", "Color(0xFF000000)")];
    assert_eq!(
        Material3BuilderExtractor::light_color_scheme(&colors),
        "lightColorScheme (\n primary = Color(0xFF123456)\nscrim = Color(0xFF000000))"
    );
    assert_eq!(
        Material3BuilderExtractor::dark_color_scheme(&colors),
        "darkColorScheme (\n primary = Color(0xFF123456)\nscrim = Color(0xFF000000))"
    );
}

#[test]
fn namespace_follows_the_kotlin_segment() {
    assert_eq!(
        derive_namespace("/home/project/app/src/main/kotlin/com/example/ui/theme/Color.kt"),
        "com.example.ui.theme.Color.kt"
    );
}

#[test]
fn namespace_follows_the_main_segment_without_kotlin() {
    assert_eq!(
        derive_namespace("app/src/main/java/com/example/Theme.kt"),
        "java.com.example.Theme.kt"
    );
}

#[test]
fn namespace_prefers_kotlin_wherever_it_stands() {
    assert_eq!(derive_namespace("/kotlin/a/main/b"), "a.main.b");
    assert_eq!(derive_namespace("x/kotlin/a/kotlin/b"), "a.kotlin.b");
}

#[test]
fn namespace_of_a_path_without_either_segment() {
    assert_eq!(derive_namespace("out/Theme.kt"), "out.Theme.kt");
    assert_eq!(derive_namespace("kotlin/main"), "kotlin.main");
    assert_eq!(derive_namespace(""), "");
    assert_eq!(derive_namespace("a/main/"), "");
}

#[test]
fn composed_output_has_package_imports_and_schemes() {
    assert_eq!(
        compose_output("com.example", "L", "D"),
        "package com.example\nimport androidx.compose.ui.graphics.Color\nimport androidx.compose.material3.lightColorScheme\nimport androidx.compose.material3.darkColorScheme\nval LightColorScheme = L\nval DarkColorScheme = D"
    );
}

#[test]
fn theme_file_of_a_document() {
    let extractor = Material3BuilderExtractor::new(SOURCE.to_string());
    assert_eq!(extractor.extract_and_render(PATH), Ok(THEME.to_string()));
}

#[test]
fn rendering_twice_gives_the_same_content() {
    let extractor = Material3BuilderExtractor::new(SOURCE.to_string());
    let first = extractor.extract_and_render(PATH);
    let second = extractor.extract_and_render(PATH);
    assert!(first.is_ok());
    assert_eq!(first, second);
    let again = Material3BuilderExtractor::new(SOURCE.to_string()).extract_and_render(PATH);
    assert_eq!(first, again);
}

#[test]
fn rendering_fails_without_start_marker() {
    let extractor =
        Material3BuilderExtractor::new("val md_theme_dark_scrim = Color(0)\n".to_string());
    assert_eq!(
        extractor.extract_and_render(PATH),
        Err(ExtractError::MarkerNotFound(Boundary::Start))
    );
}

#[test]
fn rendering_fails_on_declaration_without_underscore() {
    let text = "md_theme_light_primary\nval primary = Color(1)\nval md_theme_dark_scrim = Color(2)\n";
    assert_eq!(
        Material3BuilderExtractor::new(text.to_string()).extract_and_render(PATH),
        Err(ExtractError::MalformedDeclaration(
            "val primary = Color(1)".to_string()
        ))
    );
    assert!(OptimzeResult::try_from(text).is_err());
}

#[test]
fn optimize_result_holds_both_schemes() {
    let result = match OptimzeResult::try_from(SOURCE) {
        Ok(r) => r,
        Err(e) => panic!("{}", e.message()),
    };
    assert_eq!(
        result.light(),
        "lightColorScheme (\n primary =  Color(0xFF6750A4)\nonPrimary =  Color(0xFFFFFFFF))"
    );
    assert_eq!(
        result.dark(),
        "darkColorScheme (\n primary =  Color(0xFFD0BCFF)\nscrim =  Color(0xFF000000))"
    );
    assert_eq!(result.file_content(PATH), THEME);
}

#[test]
fn odd_number_of_entries_gives_the_dark_scheme_one_more() {
    let text = "md_theme_light_primary\nval a_one = 1\nval a_two = 2\nval md_theme_dark_scrim = 3\n";
    let result = match OptimzeResult::try_from(text) {
        Ok(r) => r,
        Err(e) => panic!("{}", e.message()),
    };
    assert_eq!(result.light(), "lightColorScheme (\n one =  1)");
    assert_eq!(result.dark(), "darkColorScheme (\n two =  2\nscrim =  3)");
}

#[test]
fn colour_file_is_a_fixed_entry() {
    assert_eq!(material3_optimzer::extractor::COLOR_FILE, "ui/theme/Color.kt");
}

#[test]
fn namespace_holds_no_slash() {
    for path in ["/a/b/kotlin/c//d/", "/main/x/y", "//", "a/b.kt"] {
        let namespace = derive_namespace(path);
        assert!(!namespace.contains('/'));
    }
    assert_eq!(derive_namespace("/a/b/kotlin/c//d/"), "c..d.");
    assert_eq!(derive_namespace("//"), "..");
}
