use greentext_epub::tag::Child;
use greentext_epub::tag::Tag;

#[test]
fn self_closing_tag() {
    assert_eq!(Tag::new("br").serialize(), "<br/>");
}

#[test]
fn tag_with_children_uses_open_and_close_tags() {
    let mut t = Tag::new("p");
    t.child(Child::Text("hello".to_string()));
    assert_eq!(t.serialize(), "<p>hello</p>");
}

#[test]
fn empty_text_child_still_forces_close_tag() {
    let mut t = Tag::new("p");
    t.child(Child::Text(String::new()));
    assert_eq!(t.serialize(), "<p></p>");
}

#[test]
fn nested_tags_serialize_in_order() {
    let mut span = Tag::new("span");
    span.child(Child::Text("masked".to_string()));
    let mut t = Tag::new("p");
    t.child(Child::Text("a ".to_string()));
    t.child(Child::Tag(span));
    t.child(Child::Text(" b".to_string()));
    assert_eq!(t.serialize(), "<p>a <span>masked</span> b</p>");
}

#[test]
fn text_children_are_escaped() {
    let mut t = Tag::new("p");
    t.child(Child::Text("x < y & y > z".to_string()));
    assert_eq!(t.serialize(), "<p>x &lt; y &amp; y &gt; z</p>");
}

#[test]
fn serialize_is_repeatable_and_never_double_escapes() {
    let mut t = Tag::new("p");
    t.child(Child::Text("a & b < c > d".to_string()));
    let first = t.serialize();
    let second = t.serialize();
    assert_eq!(first, second);
    assert_eq!(first, "<p>a &amp; b &lt; c &gt; d</p>");
    assert!(!first.contains("&amp;amp;"));
    assert!(!first.contains("&amp;lt;"));
    assert!(!first.contains("&amp;gt;"));
}

#[test]
fn attribute_values_are_escaped() {
    let mut t = Tag::new("p");
    t.attribute("title", "he said \"hi\" & left");
    assert_eq!(t.serialize(), "<p title=\"he said &quot;hi&quot; &amp; left\"/>");
}

#[test]
fn attributes_keep_order_and_duplicates() {
    let mut t = Tag::new("p");
    t.attribute("a", "1");
    t.attribute("b", "2");
    t.attribute("a", "3");
    assert_eq!(t.serialize(), "<p a=\"1\" b=\"2\" a=\"3\"/>");
}

#[test]
fn equal_trees_compare_equal() {
    let mut a = Tag::new("p");
    a.attribute("class", "icolor");
    a.child(Child::Text("x".to_string()));
    let mut b = Tag::new("p");
    b.attribute("class", "icolor");
    b.child(Child::Text("x".to_string()));
    assert_eq!(a, b);
    b.child(Child::Text("y".to_string()));
    assert_ne!(a, b);
}

#[test]
fn children_convert_from_tags_and_strings() {
    let mut t = Tag::new("p");
    t.child(Child::from("raw".to_string()));
    t.child(Child::from(Tag::new("br")));
    assert_eq!(t.serialize(), "<p>raw<br/></p>");
}
