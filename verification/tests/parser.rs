use greentext_epub::parser::tokenize;
use greentext_epub::parser::LineParser;
use greentext_epub::parser::Token;
use greentext_epub::parser::RESET_FOREGROUND_CLASS;
use greentext_epub::tag::Child;
use greentext_epub::tag::Tag;

/// A paragraph that keeps the default highlight (no reset class).
fn p_hi(children: Vec<Child>) -> Tag {
    let mut t = Tag::new("p");
    for c in children {
        t.child(c);
    }
    t
}

/// A paragraph with the highlight-reset class.
fn p(children: Vec<Child>) -> Tag {
    let mut t = Tag::new("p");
    t.attribute("class", RESET_FOREGROUND_CLASS);
    for c in children {
        t.child(c);
    }
    t
}

fn text(s: &str) -> Child {
    Child::Text(s.to_string())
}

fn spoiler(content: &str) -> Child {
    let mut s = Tag::new("span");
    s.child(text(content));
    Child::Tag(s)
}

fn assert_parse(parser: &mut LineParser, expected: &Tag, raw: &str) {
    assert_eq!(&parser.parse(raw), expected);
    assert_eq!(
        parser.is_spoiler_open(),
        false,
        "expected `open_spoiler` attribute to be `false`: {:?}",
        raw
    );
}

fn assert_parse_spoiler(parser: &mut LineParser, expected: &Tag, raw: &str) {
    assert_eq!(&parser.parse(raw), expected);
    assert_eq!(
        parser.is_spoiler_open(),
        true,
        "expected `open_spoiler` attribute to be `true`: {:?}",
        raw
    );
}

#[test]
fn highlight_lines() {
    let mut parser = LineParser::default();

    assert_parse(
        &mut parser,
        &p(vec![text("A paragraph without highlight")]),
        "A paragraph without highlight",
    );
    assert_parse(
        &mut parser,
        &p_hi(vec![text(">Line with highlight")]),
        ">Line with highlight",
    );
}

#[test]
fn single_line_spoiler() {
    let mut parser = LineParser::default();

    assert_parse(
        &mut parser,
        &p(vec![spoiler("This is a spoiler paragraph")]),
        "[spoiler]This is a spoiler paragraph[/spoiler]",
    );
    assert_parse(
        &mut parser,
        &p(vec![text("Starts normal "), spoiler("and then there is a spoiler")]),
        "Starts normal [spoiler]and then there is a spoiler[/spoiler]",
    );
    assert_parse(
        &mut parser,
        &p(vec![spoiler("Starts with a spoiler"), text(" and ends normal")]),
        "[spoiler]Starts with a spoiler[/spoiler] and ends normal",
    );
    assert_parse(
        &mut parser,
        &p(vec![
            text("Starts normal "),
            spoiler(", then a spoiler in the middle"),
            text(" and ends normal"),
        ]),
        "Starts normal [spoiler], then a spoiler in the middle[/spoiler] and ends normal",
    );
}

#[test]
fn single_line_spoiler_with_highlight() {
    let mut parser = LineParser::default();

    assert_parse(
        &mut parser,
        &p_hi(vec![spoiler(">This is a spoiler paragraph")]),
        "[spoiler]>This is a spoiler paragraph[/spoiler]",
    );
    assert_parse(
        &mut parser,
        &p_hi(vec![
            text(">Starts normal with '>' "),
            spoiler("and then there is a spoiler"),
        ]),
        ">Starts normal with '>' [spoiler]and then there is a spoiler[/spoiler]",
    );
    assert_parse(
        &mut parser,
        &p_hi(vec![
            spoiler(">Starts with a spoiler and '>' inside of it"),
            text(" and ends normal"),
        ]),
        "[spoiler]>Starts with a spoiler and '>' inside of it[/spoiler] and ends normal",
    );
    assert_parse(
        &mut parser,
        &p_hi(vec![
            text(">Starts normal and with '>' "),
            spoiler(", then a spoiler in the middle"),
            text(" and ends normal"),
        ]),
        ">Starts normal and with '>' [spoiler], then a spoiler in the middle[/spoiler] and ends normal",
    );

    assert_parse(
        &mut parser,
        &p_hi(vec![
            text(">"),
            spoiler("Starts with a spoiler and '>' outside of it"),
            text(" and ends normal"),
        ]),
        ">[spoiler]Starts with a spoiler and '>' outside of it[/spoiler] and ends normal",
    );
}

#[test]
fn multiple_line_spoiler() {
    let mut parser = LineParser::default();

    assert_parse_spoiler(
        &mut parser,
        &p(vec![text("Starts normal "), spoiler("and then an spoiler opens")]),
        "Starts normal [spoiler]and then an spoiler opens",
    );
    assert_parse_spoiler(
        &mut parser,
        &p(vec![spoiler("The unclosed spoiler continues on this line")]),
        "The unclosed spoiler continues on this line",
    );
    assert_parse(
        &mut parser,
        &p(vec![spoiler("The spoiler ends here"), text(" and continues as normal")]),
        "The spoiler ends here[/spoiler] and continues as normal",
    );
}

#[test]
fn multiple_line_spoiler_with_highlight() {
    let mut parser = LineParser::default();

    assert_parse_spoiler(
        &mut parser,
        &p_hi(vec![
            text(">Starts normal and with '>' "),
            spoiler("and then an spoiler opens"),
        ]),
        ">Starts normal and with '>' [spoiler]and then an spoiler opens",
    );
    assert_parse_spoiler(
        &mut parser,
        &p_hi(vec![spoiler(">The unclosed spoiler continues on this line")]),
        ">The unclosed spoiler continues on this line",
    );
    assert_parse(
        &mut parser,
        &p_hi(vec![spoiler(">The spoiler ends here"), text(" and continues as normal")]),
        ">The spoiler ends here[/spoiler] and continues as normal",
    );

    // A closing tag at the start
    let _ = &parser.parse("[spoiler]");
    assert_parse(
        &mut parser,
        &p_hi(vec![text(">Nothing here either")]),
        "[/spoiler]>Nothing here either",
    );
}

#[test]
fn several_spoilers_in_a_single_line() {
    let mut parser = LineParser::default();

    assert_parse(
        &mut parser,
        &p(vec![
            spoiler("This is a paragraph"),
            text(" with "),
            spoiler("two spoilers"),
        ]),
        "[spoiler]This is a paragraph[/spoiler] with [spoiler]two spoilers[/spoiler]",
    );
    assert_parse(
        &mut parser,
        &p(vec![
            spoiler("This is"),
            text(" a "),
            spoiler("paragraph"),
            text(" with "),
            spoiler("three spoilers"),
        ]),
        "[spoiler]This is[/spoiler] a [spoiler]paragraph[/spoiler] with [spoiler]three spoilers[/spoiler]",
    );
    assert_parse(
        &mut parser,
        &p(vec![
            spoiler("This is"),
            text(" a "),
            spoiler("paragraph"),
            text(" with "),
            spoiler("four"),
            text(" "),
            spoiler("spoilers"),
        ]),
        "[spoiler]This is[/spoiler] a [spoiler]paragraph[/spoiler] with [spoiler]four[/spoiler] [spoiler]spoilers[/spoiler]",
    );
}

#[test]
fn several_spoilers_multiple_lines() {
    let mut parser = LineParser::default();

    assert_parse_spoiler(
        &mut parser,
        &p(vec![
            text("The "),
            spoiler("spoiler"),
            text(" starts on "),
            spoiler("this line"),
        ]),
        "The [spoiler]spoiler[/spoiler] starts on [spoiler]this line",
    );
    assert_parse_spoiler(
        &mut parser,
        &p(vec![
            spoiler("then ends on the following one"),
            text(", next is "),
            spoiler("a middle one"),
            text(" and then "),
            spoiler("it starts again"),
        ]),
        "then ends on the following one[/spoiler], next is [spoiler]a middle one[/spoiler] and then [spoiler]it starts again",
    );
    assert_parse(
        &mut parser,
        &p(vec![spoiler("to end"), text(" and never come back again")]),
        "to end[/spoiler] and never come back again",
    );
}

#[test]
fn unclosed_spoiler() {
    let mut parser = LineParser::default();

    assert_parse_spoiler(
        &mut parser,
        &p(vec![spoiler("Oh no I lost my spoiler closing tag")]),
        "[spoiler]Oh no I lost my spoiler closing tag",
    );
    assert_parse_spoiler(
        &mut parser,
        &p(vec![spoiler("Now I can't stop the [spoiler] from consuming everything")]),
        "Now I can't stop the [spoiler] from consuming everything",
    );
    assert_parse_spoiler(&mut parser, &p(vec![spoiler("Help!")]), "Help!");
}

#[test]
fn empty_spoiler() {
    let mut parser = LineParser::default();

    // Single line
    assert_parse(
        &mut parser,
        &p(vec![text("Nothing here")]),
        "[spoiler][/spoiler]Nothing here",
    );
    assert_parse(
        &mut parser,
        &p(vec![text("Nothing here "), text(", nothing there")]),
        "Nothing here [spoiler][/spoiler], nothing there",
    );
    assert_parse(
        &mut parser,
        &p(vec![text("Nothing there")]),
        "Nothing there[spoiler][/spoiler]",
    );

    // In two lines
    assert_parse_spoiler(&mut parser, &p(vec![text("Nothing here")]), "Nothing here[spoiler]");
    assert_parse(
        &mut parser,
        &p(vec![text("Nothing here either")]),
        "[/spoiler]Nothing here either",
    );
}

#[test]
fn spoiler_round_trip() {
    let mut parser = LineParser::default();
    let result = parser.parse("[spoiler]X[/spoiler]");
    assert_eq!(result, p(vec![spoiler("X")]));
    assert_eq!(parser.is_spoiler_open(), false);
}

#[test]
fn cross_line_span() {
    let mut parser = LineParser::default();
    let first = parser.parse("A [spoiler]B");
    assert_eq!(first, p(vec![text("A "), spoiler("B")]));
    assert_eq!(parser.is_spoiler_open(), true);
    let second = parser.parse("C[/spoiler]D");
    assert_eq!(second, p(vec![spoiler("C"), text("D")]));
    assert_eq!(parser.is_spoiler_open(), false);
}

#[test]
fn degenerate_empty_spoiler() {
    let mut parser = LineParser::default();
    let result = parser.parse("X[spoiler][/spoiler]Y");
    assert_eq!(result, p(vec![text("X"), text("Y")]));
    assert_eq!(parser.is_spoiler_open(), false);
}

#[test]
fn empty_line_parses_to_bare_paragraph() {
    let mut parser = LineParser::default();
    let result = parser.parse("");
    assert_eq!(result, p_hi(vec![]));
    assert_eq!(parser.is_spoiler_open(), false);
}

#[test]
fn parsed_paragraph_serializes_with_escapes() {
    let mut parser = LineParser::default();
    let result = parser.parse("a & b [spoiler]x < y[/spoiler]");
    assert_eq!(
        result.serialize(),
        "<p class=\"icolor\">a &amp; b <span>x &lt; y</span></p>"
    );
}

#[test]
fn tokenize_splits_markers_and_text() {
    let toks = tokenize("a[spoiler]b[/spoiler]");
    assert_eq!(
        toks,
        vec![
            Token::Text("a".to_string()),
            Token::SpoilerOpen,
            Token::Text("b".to_string()),
            Token::SpoilerClose,
        ]
    );
    assert_eq!(tokenize(""), vec![]);
    assert_eq!(
        tokenize("[/spoiler][spoiler]"),
        vec![Token::SpoilerClose, Token::SpoilerOpen]
    );
    // A partial marker is plain text.
    assert_eq!(tokenize("[spoiler"), vec![Token::Text("[spoiler".to_string())]);
}

#[test]
fn stray_closing_marker_is_literal_text() {
    let mut parser = LineParser::default();
    let result = parser.parse("a[/spoiler]b");
    assert_eq!(result, p(vec![text("a"), text("[/spoiler]"), text("b")]));
    assert_eq!(parser.is_spoiler_open(), false);
}

#[test]
fn multibyte_text_around_markers() {
    let mut parser = LineParser::default();
    let result = parser.parse("héllo [spoiler]ñandú[/spoiler] çiao");
    assert_eq!(
        result,
        p(vec![text("héllo "), spoiler("ñandú"), text(" çiao")])
    );
    assert_eq!(result.serialize(), "<p class=\"icolor\">héllo <span>ñandú</span> çiao</p>");
}
