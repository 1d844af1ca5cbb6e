use greentext_epub::content::coverpage_content;
use greentext_epub::content::stylesheet_content;
use greentext_epub::content::PasteContent;
use greentext_epub::content::xhtml_content_from_html_tag;
use greentext_epub::parser::LineParser;
use greentext_epub::tag::Child;
use greentext_epub::tag::Tag;

const XML_DECL: &str = "<?xml version='1.0' encoding='utf-8'?><!DOCTYPE html>";

#[test]
fn xhtml_content_prefixes_declaration() {
    let html = Tag::new("html");
    assert_eq!(xhtml_content_from_html_tag(html), format!("{}<html/>", XML_DECL));
}

#[test]
fn coverpage_matches_expected_document() {
    let result = coverpage_content("img/cover.png", (640, 1024));
    let expected = format!(
        "{}<html xmlns=\"http://www.w3.org/1999/xhtml\" \
         xmlns:epub=\"http://www.idpf.org/2007/ops\" lang=\"en\" xml:lang=\"en\">\
         <head><meta charset=\"utf-8\"/>\
         <meta name=\"viewport\" content=\"width=640, height=1024\"/>\
         <title>Cover</title>\
         <link rel=\"stylesheet\" type=\"text/css\" href=\"../style/coverstyle.css\"/>\
         </head>\
         <body epub:type=\"frontmatter cover\" id=\"coverpage\">\
         <svg xmlns=\"http://www.w3.org/2000/svg\" xmlns:xlink=\"http://www.w3.org/1999/xlink\" \
         version=\"1.1\" viewBox=\"0 0 640 1024\" id=\"cover\">\
         <image width=\"640\" height=\"1024\" xlink:href=\"../img/cover.png\"/>\
         </svg></body></html>",
        XML_DECL
    );
    assert_eq!(result, expected);
}

#[test]
fn stylesheet_embeds_both_colors() {
    let result = stylesheet_content("#2CAF26", "#000");
    let expected = "p { color: #2CAF26; }\n\
                    .icolor { color: initial; }\n\
                    p > span { background-color: #000; color: transparent; }";
    assert_eq!(result, expected.as_bytes().to_vec());
}

#[test]
fn paste_content_builds_document_around_lines() {
    let mut paste = PasteContent::new("A <title> & more");
    let mut parser = LineParser::default();
    paste.add_line(Child::Tag(parser.parse(">greentext line")));
    paste.add_line(Child::Tag(Tag::new("br")));
    paste.add_line(Child::Tag(parser.parse("plain [spoiler]hidden[/spoiler]")));
    let result = paste.build();
    let expected = format!(
        "{}<html xmlns=\"http://www.w3.org/1999/xhtml\" \
         xmlns:epub=\"http://www.idpf.org/2007/ops\" \
         epub:prefix=\"z3998: http://www.daisy.org/z3998/2012/vocab/structure/#\" \
         lang=\"en\" xml:lang=\"en\">\
         <head><title>A &lt;title&gt; &amp; more</title>\
         <link href=\"../stylesheet.css\" rel=\"stylesheet\" type=\"text/css\"/></head>\
         <body><p>&gt;greentext line</p><br/>\
         <p class=\"icolor\">plain <span>hidden</span></p></body></html>",
        XML_DECL
    );
    assert_eq!(result, expected);
}

#[test]
fn paste_content_with_no_lines_has_self_closing_body() {
    let paste = PasteContent::new("empty");
    let result = paste.build();
    assert!(result.ends_with("<body/></html>"));
    assert!(result.contains("<title>empty</title>"));
}
