use cleaning_bot::ical::{char_boundary, fold_line, ical_text, prop};
use cleaning_bot::pdf::{font_size_for_rows, tex_esc};

#[test]
fn fold_short_line_unchanged() {
    let mut out = String::new();
    fold_line(&mut out, "SUMMARY:Hello");
    assert_eq!(out, "SUMMARY:Hello\r\n");
}

#[test]
fn fold_long_line_wraps() {
    let long = format!("DESCRIPTION:{}", "x".repeat(100));
    let mut out = String::new();
    fold_line(&mut out, &long);
    for physical in out.split("\r\n").filter(|l| !l.is_empty()) {
        assert!(physical.len() <= 75, "line too long: {physical:?}");
    }
}

#[test]
fn ical_text_escapes() {
    assert_eq!(ical_text("a,b;c\\d\ne"), "a\\,b\\;c\\\\d\\ne");
}

#[test]
fn special_chars_are_escaped() {
    assert_eq!(tex_esc("a & b"), r"a \& b");
    assert_eq!(tex_esc("100%"), r"100\%");
    assert_eq!(tex_esc("$price"), r"\$price");
    assert_eq!(tex_esc("a_b"), r"a\_b");
    assert_eq!(tex_esc("a#b"), r"a\#b");
    assert_eq!(tex_esc("25 \u{2013} 31 May"), "25 -- 31 May");
    assert_eq!(tex_esc("Mon\u{2014}Fri"), "Mon---Fri");
}

#[test]
fn escaped_text_holds_no_bare_signs() {
    let text = tex_esc(r"50% of $5 & #1_a ~ ^ {b} \\ \u{2013}");
    let signs: Vec<char> = text.chars().collect();
    for (i, c) in signs.iter().enumerate() {
        assert!(!"~^".contains(*c), "{text}");
        if "&%$#_".contains(*c) {
            assert_eq!(signs[i - 1], '\\', "{text}");
        }
    }
    assert_eq!(tex_esc(r"~^\"), r"\textasciitilde{}\textasciicircum{}\textbackslash{}");
}

#[test]
fn folding_counts_bytes_and_never_cuts_a_character() {
    let line = format!("SUMMARY:{}", "ü".repeat(60));
    let mut out = String::new();
    fold_line(&mut out, &line);
    for physical in out.split("\r\n").filter(|l| !l.is_empty()) {
        assert!(physical.len() <= 75, "line too long: {physical:?}");
    }
    assert_eq!(out.replace("\r\n ", ""), format!("{line}\r\n"));
    assert_eq!(char_boundary("aü", 2), 1);
    assert_eq!(char_boundary("aü", 3), 3);
}

#[test]
fn a_property_is_its_name_a_colon_and_its_value() {
    let mut out = "x".to_owned();
    prop(&mut out, "VERSION", "2.0");
    assert_eq!(out, "xVERSION:2.0\r\n");
    assert_eq!(ical_text("a\r\nb"), "a\\nb");
}

#[test]
fn long_tables_get_smaller_letters() {
    assert_eq!(font_size_for_rows(25), ("10", "13"));
    assert_eq!(font_size_for_rows(26), ("9", "11"));
    assert_eq!(font_size_for_rows(45), ("8", "10"));
    assert_eq!(font_size_for_rows(46), ("7", "9"));
}
