use minetex::glyph::mc_char_len;
use minetex::glyph::mcbook_len;
use minetex::glyph::scan_unknown_glyphs;
use minetex::glyph::trim_trailing_spaces;
use minetex::wrap::wrap_document;
use minetex::wrap::wrap_paragraph;

#[test]
fn glyph_width_classes() {
    assert_eq!(mc_char_len('A'), 5);
    assert_eq!(mc_char_len('0'), 5);
    assert_eq!(mc_char_len('\\'), 5);
    assert_eq!(mc_char_len('£'), 5);
    assert_eq!(mc_char_len('f'), 4);
    assert_eq!(mc_char_len('>'), 4);
    assert_eq!(mc_char_len(' '), 3);
    assert_eq!(mc_char_len('I'), 3);
    assert_eq!(mc_char_len('t'), 3);
    assert_eq!(mc_char_len('l'), 2);
    assert_eq!(mc_char_len('`'), 2);
    assert_eq!(mc_char_len('i'), 1);
    assert_eq!(mc_char_len(','), 1);
    assert_eq!(mc_char_len('\n'), 0);
}

#[test]
fn glyph_fallback_width() {
    assert_eq!(mc_char_len('é'), 16);
    assert_eq!(mc_char_len('~'), 16);
}

#[test]
fn measure_with_kerning() {
    assert_eq!(mcbook_len(""), 0);
    assert_eq!(mcbook_len("A"), 5);
    assert_eq!(mcbook_len("AA"), 11);
    // 8 glyphs of width 5, one space of width 3, 8 kerning units
    assert_eq!(mcbook_len("AAAA AAAA"), 51);
}

#[test]
fn trim_only_trailing_spaces() {
    assert_eq!(trim_trailing_spaces("ab  "), "ab");
    assert_eq!(trim_trailing_spaces("ab"), "ab");
    assert_eq!(trim_trailing_spaces("  "), "");
    assert_eq!(trim_trailing_spaces(" a b "), " a b");
}

#[test]
fn empty_paragraph_is_one_empty_line() {
    let (lines, warns) = wrap_paragraph("");
    assert_eq!(lines, vec![String::new()]);
    assert!(warns.is_empty());
}

#[test]
fn two_short_words_stay_on_one_line() {
    let (lines, warns) = wrap_paragraph("AAAA AAAA");
    assert_eq!(lines, vec!["AAAA AAAA".to_string()]);
    assert!(warns.is_empty());
}

#[test]
fn overflowing_word_wraps_and_flush_trims() {
    // each word measures 75 with its space (71 bare); together they overflow
    let (lines, warns) = wrap_paragraph("AAAAAAAAAAAA AAAAAAAAAAAA");
    assert_eq!(
        lines,
        vec!["AAAAAAAAAAAA".to_string(), "AAAAAAAAAAAA".to_string()]
    );
    assert!(warns.is_empty());
    // the trimmed space is the only loss: one space rejoins the paragraph
    assert_eq!(format!("{} {}", lines[0], lines[1]), "AAAAAAAAAAAA AAAAAAAAAAAA");
}

#[test]
fn overlong_word_is_force_packed() {
    let word = "A".repeat(30); // width 30 * 5 + 29 = 179, over the budget
    let (lines, warns) = wrap_paragraph(&word);
    assert_eq!(lines.len(), 2);
    assert_eq!(lines[0], "A".repeat(19)); // width 113 is rejected strictly at 113
    assert_eq!(lines[1], "A".repeat(11));
    assert_eq!(warns, vec![word.clone()]);
    // the fragments reconstruct the token exactly
    assert_eq!(lines.concat(), word);
}

#[test]
fn packing_terminates_on_fallback_glyphs() {
    // eight unknown glyphs measure 8 * 16 + 7 = 135: packing must split and stop
    let word = "é".repeat(8);
    let (lines, warns) = wrap_paragraph(&word);
    assert_eq!(lines, vec!["é".repeat(6), "é".repeat(2)]);
    assert_eq!(warns.len(), 1);
    assert_eq!(lines.concat(), word);
}

#[test]
fn unknown_glyphs_are_reported() {
    assert_eq!(scan_unknown_glyphs("héllo~"), vec!['é', '~']);
    assert!(scan_unknown_glyphs("hello\n").is_empty());
}

#[test]
fn wrapped_lines_stay_within_budget() {
    let text = "the quick brown fox jumps over the lazy dog ".repeat(8);
    let (lines, warns) = wrap_paragraph(&text);
    assert!(warns.is_empty());
    assert!(lines.len() > 1);
    for line in &lines {
        assert!(mcbook_len(line) <= 113);
    }
}

#[test]
fn rewrapping_a_wrapped_line_is_identity() {
    let text = "the quick brown fox jumps over the lazy dog ".repeat(8);
    let (lines, _) = wrap_paragraph(&text);
    for line in &lines {
        let (again, warns) = wrap_paragraph(line);
        assert_eq!(&again, &vec![line.clone()]);
        assert!(warns.is_empty());
    }
}

#[test]
fn fit_test_ignores_the_joining_kerning_unit() {
    // first token measures 63 with its space, second 49: their sum 112 is
    // accepted, and the joined line measures exactly the budget of 113
    let (lines, warns) = wrap_paragraph("AAAAAAAAAA AAAAAAAAi");
    assert_eq!(lines, vec!["AAAAAAAAAA AAAAAAAAi".to_string()]);
    assert_eq!(mcbook_len(&lines[0]), 113);
    assert!(warns.is_empty());
}

#[test]
fn rewrapping_the_joined_output_keeps_every_line() {
    let text = format!(
        "{}\n\nsecond paragraph with its own words ",
        "the quick brown fox jumps over the lazy dog ".repeat(8)
    );
    let (lines, _) = wrap_document(&text);
    let joined = lines.join("\n");
    let (again, warns) = wrap_document(&joined);
    assert_eq!(again, lines);
    assert!(warns.is_empty());
}

#[test]
fn paragraphs_wrap_independently_and_in_order() {
    let (lines, warns) = wrap_document("a\n\nb");
    assert_eq!(
        lines,
        vec!["a".to_string(), String::new(), "b".to_string()]
    );
    assert!(warns.is_empty());
}

#[test]
fn paragraph_end_flush_keeps_a_trailing_space() {
    // only an overflow flush trims; the final flush of a paragraph does not
    let (lines, warns) = wrap_paragraph("a ");
    assert_eq!(lines, vec!["a ".to_string()]);
    assert!(warns.is_empty());
}

#[test]
fn empty_document_yields_one_empty_line() {
    let (lines, warns) = wrap_document("");
    assert_eq!(lines, vec![String::new()]);
    assert!(warns.is_empty());
}
