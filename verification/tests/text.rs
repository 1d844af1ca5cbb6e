use greentext_epub::text::escape_attr;
use greentext_epub::text::escape_text;
use greentext_epub::text::indent_args;
use greentext_epub::text::usize_to_string;

#[test]
fn text_escaping_covers_the_three_entities() {
    assert_eq!(escape_text("a & b"), "a &amp; b");
    assert_eq!(escape_text("<p>"), "&lt;p&gt;");
    assert_eq!(escape_text("plain"), "plain");
    assert_eq!(escape_text(""), "");
    // The quote character is not special in text content.
    assert_eq!(escape_text("say \"hi\""), "say \"hi\"");
}

#[test]
fn attr_escaping_covers_the_quote_as_well() {
    assert_eq!(escape_attr("say \"hi\""), "say &quot;hi&quot;");
    assert_eq!(escape_attr("a & b < c > d"), "a &amp; b &lt; c &gt; d");
    assert_eq!(escape_attr(""), "");
}

#[test]
fn escaping_applied_twice_differs_from_once() {
    let once = escape_text("&");
    let twice = escape_text(once.as_str());
    assert_eq!(once, "&amp;");
    assert_eq!(twice, "&amp;amp;");
    assert_ne!(once, twice);
}

#[test]
fn single_line_stays_as_it_is() {
    assert_eq!(indent_args("one line"), "one line");
    assert_eq!(indent_args(""), "");
}

#[test]
fn continuation_lines_are_indented() {
    assert_eq!(indent_args("first\nsecond\nthird"), "first\n  second\n  third");
    assert_eq!(indent_args("first\r\nsecond"), "first\n  second");
    // A trailing line ending adds no line.
    assert_eq!(indent_args("first\nsecond\n"), "first\n  second");
    // An empty middle line still appears, indented.
    assert_eq!(indent_args("a\n\nb"), "a\n  \n  b");
}

#[test]
fn numbers_render_in_decimal() {
    assert_eq!(usize_to_string(0), "0");
    assert_eq!(usize_to_string(7), "7");
    assert_eq!(usize_to_string(10), "10");
    assert_eq!(usize_to_string(1024), "1024");
    assert_eq!(usize_to_string(987654321), "987654321");
}
