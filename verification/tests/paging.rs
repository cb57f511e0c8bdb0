use minetex::page::paginate;
use minetex::wrap::wrap_document;

fn lines_of(n: usize) -> Vec<String> {
    let mut v: Vec<String> = Vec::new();
    for _ in 0..n {
        v.push("a".to_string());
    }
    v
}

#[test]
fn no_lines_no_pages() {
    let pages = paginate(&Vec::new());
    assert!(pages.is_empty());
}

#[test]
fn fourteen_lines_fill_exactly_one_page() {
    let pages = paginate(&lines_of(14));
    assert_eq!(pages.len(), 1);
    // newline between lines, none after the 14th
    let expected = format!("{}{}", "a\n".repeat(13), "a");
    assert_eq!(pages[0], expected);
}

#[test]
fn fifteenth_line_starts_the_second_page() {
    let pages = paginate(&lines_of(15));
    assert_eq!(pages.len(), 2);
    assert_eq!(pages[0], format!("{}{}", "a\n".repeat(13), "a"));
    // a partial final page keeps a newline after every line
    assert_eq!(pages[1], "a\n");
}

#[test]
fn partial_final_page_holds_the_remainder() {
    let pages = paginate(&lines_of(30));
    assert_eq!(pages.len(), 3);
    assert_eq!(pages[2], "a\na\n");
}

#[test]
fn twenty_eight_lines_fill_two_full_pages() {
    let pages = paginate(&lines_of(28));
    assert_eq!(pages.len(), 2);
    let full = format!("{}{}", "a\n".repeat(13), "a");
    assert_eq!(pages[0], full);
    assert_eq!(pages[1], full);
}

#[test]
fn empty_document_makes_one_blank_page() {
    let (lines, _) = wrap_document("");
    let pages = paginate(&lines);
    assert_eq!(pages, vec!["\n".to_string()]);
}
