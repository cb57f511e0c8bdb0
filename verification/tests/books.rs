use minetex::book::output_readable;
use minetex::book::output_stendhal;
use minetex::book::u64_to_string;
use minetex::page::paginate;
use minetex::wrap::wrap_document;

#[test]
fn decimal_notation() {
    assert_eq!(u64_to_string(0), "0");
    assert_eq!(u64_to_string(9), "9");
    assert_eq!(u64_to_string(10), "10");
    assert_eq!(u64_to_string(113), "113");
    assert_eq!(u64_to_string(18446744073709551615), "18446744073709551615");
}

#[test]
fn stendhal_layout() {
    let out = output_stendhal("mybook", "Alice", vec!["Hello".to_string()]);
    assert_eq!(out, "title: mybook\nauthor: Alice\npages:\n#- Hello\n");
}

#[test]
fn stendhal_lists_every_page() {
    let out = output_stendhal("t", "a", vec!["p1".to_string(), "p2".to_string()]);
    assert_eq!(out, "title: t\nauthor: a\npages:\n#- p1\n#- p2\n");
}

#[test]
fn readable_layout() {
    let out = output_readable(vec!["Hi".to_string()]);
    assert_eq!(out, "--- Page 1 ---\nHi\n--- End Page 1 ---\n");
}

#[test]
fn readable_numbers_pages_from_one() {
    let out = output_readable(vec!["x".to_string(), "y".to_string()]);
    assert_eq!(
        out,
        "--- Page 1 ---\nx\n--- End Page 1 ---\n--- Page 2 ---\ny\n--- End Page 2 ---\n"
    );
}

#[test]
fn whole_pipeline_on_a_short_document() {
    let (lines, warns) = wrap_document("Hello world");
    assert!(warns.is_empty());
    let pages = paginate(&lines);
    // a partial final page keeps a newline after its line, so the page
    // entry carries it in front of the marker's own newline
    assert_eq!(pages, vec!["Hello world\n".to_string()]);
    let out = output_stendhal("mybook", "Alice", pages);
    assert_eq!(out, "title: mybook\nauthor: Alice\npages:\n#- Hello world\n\n");
}
