//! Document assembly around the parsed paragraphs: the complete page that
//! holds one paste's body, the cover page, and the stylesheet rules for the
//! highlight and spoiler conventions.

use crate::tag::Child;
use crate::tag::ChildView;
use crate::tag::Tag;
use crate::tag::TagView;
use crate::tag::lemma_tag_child_view;
use crate::tag::lemma_text_child_view;
use crate::tag::ser_tag;
use crate::text::dec_str;
use crate::text::usize_to_string;
use vstd::prelude::*;
use vstd::string::StrSliceExecFns;
use vstd::string::StringExecFns;
use vstd::utf8::encode_utf8;

verus! {

/// Where the cover page's stylesheet lives inside the container.
pub const COVER_STYLESHEET: &'static str = "style/coverstyle.css";

/// The declaration put in front of every serialized document.
pub open spec fn xml_decl() -> Seq<char> {
    "<?xml version='1.0' encoding='utf-8'?><!DOCTYPE html>"@
}

/// The document namespace.
pub open spec fn ns_xhtml() -> Seq<char> {
    "http://www.w3.org/1999/xhtml"@
}

/// The packaging vocabulary namespace.
pub open spec fn ns_ops() -> Seq<char> {
    "http://www.idpf.org/2007/ops"@
}

/// The scalable drawing namespace used on the cover page.
pub open spec fn ns_svg() -> Seq<char> {
    "http://www.w3.org/2000/svg"@
}

/// The link namespace used by the cover image reference.
pub open spec fn ns_xlink() -> Seq<char> {
    "http://www.w3.org/1999/xlink"@
}

/// Appends a nested element to a parent's children.
fn push_tag_child(parent: &mut Tag, t: Tag)
    ensures
        final(parent)@.name == old(parent)@.name,
        final(parent)@.attrs == old(parent)@.attrs,
        final(parent)@.children == old(parent)@.children.push(ChildView::Tag(t@)),
{
    let ghost tv = t;
    let c = Child::Tag(t);
    proof {
        lemma_tag_child_view(tv);
    }
    parent.child(c);
}

/// Appends a text child to a parent's children.
fn push_text_child(parent: &mut Tag, s: &str)
    ensures
        final(parent)@.name == old(parent)@.name,
        final(parent)@.attrs == old(parent)@.attrs,
        final(parent)@.children == old(parent)@.children.push(ChildView::Text(s@)),
{
    let owned = s.to_owned();
    let ghost ov = owned;
    let c = Child::Text(owned);
    proof {
        lemma_text_child_view(ov);
    }
    parent.child(c);
}

/// Prefixes a serialized element with the document declaration.
pub fn xhtml_content_from_html_tag(html: Tag) -> (r: String)
    ensures
        r@ == xml_decl() + ser_tag(html@),
{
    let mut r = String::from_str("<?xml version='1.0' encoding='utf-8'?><!DOCTYPE html>");
    let ser = html.serialize();
    r.append(ser.as_str());
    r
}

/// The viewport declaration for a cover image of the given size.
pub open spec fn viewport_content(w: nat, h: nat) -> Seq<char> {
    "width="@ + dec_str(w) + ", height="@ + dec_str(h)
}

/// The view box covering a cover image of the given size.
pub open spec fn viewbox_content(w: nat, h: nat) -> Seq<char> {
    "0 0 "@ + dec_str(w) + " "@ + dec_str(h)
}

/// The head of the cover page: charset, viewport, title and stylesheet link.
pub open spec fn coverpage_head_view(w: nat, h: nat) -> ChildView {
    ChildView::Tag(
        TagView {
            name: "head"@,
            attrs: Seq::empty(),
            children: seq![
                ChildView::Tag(
                    TagView {
                        name: "meta"@,
                        attrs: seq![("charset"@, "utf-8"@)],
                        children: Seq::empty(),
                    },
                ),
                ChildView::Tag(
                    TagView {
                        name: "meta"@,
                        attrs: seq![("name"@, "viewport"@), ("content"@, viewport_content(w, h))],
                        children: Seq::empty(),
                    },
                ),
                ChildView::Tag(
                    TagView {
                        name: "title"@,
                        attrs: Seq::empty(),
                        children: seq![ChildView::Text("Cover"@)],
                    },
                ),
                ChildView::Tag(
                    TagView {
                        name: "link"@,
                        attrs: seq![
                            ("rel"@, "stylesheet"@),
                            ("type"@, "text/css"@),
                            ("href"@, "../"@ + "style/coverstyle.css"@),
                        ],
                        children: Seq::empty(),
                    },
                ),
            ],
        },
    )
}

/// The body of the cover page: the image wrapped in a scalable drawing that
/// fills the page.
pub open spec fn coverpage_body_view(href: Seq<char>, w: nat, h: nat) -> ChildView {
    ChildView::Tag(
        TagView {
            name: "body"@,
            attrs: seq![("epub:type"@, "frontmatter cover"@), ("id"@, "coverpage"@)],
            children: seq![
                ChildView::Tag(
                    TagView {
                        name: "svg"@,
                        attrs: seq![
                            ("xmlns"@, ns_svg()),
                            ("xmlns:xlink"@, ns_xlink()),
                            ("version"@, "1.1"@),
                            ("viewBox"@, viewbox_content(w, h)),
                            ("id"@, "cover"@),
                        ],
                        children: seq![
                            ChildView::Tag(
                                TagView {
                                    name: "image"@,
                                    attrs: seq![
                                        ("width"@, dec_str(w)),
                                        ("height"@, dec_str(h)),
                                        ("xlink:href"@, "../"@ + href),
                                    ],
                                    children: Seq::empty(),
                                },
                            ),
                        ],
                    },
                ),
            ],
        },
    )
}

/// The complete cover page for an image at `href` with the given size.
pub open spec fn coverpage_view(href: Seq<char>, w: nat, h: nat) -> TagView {
    TagView {
        name: "html"@,
        attrs: seq![
            ("xmlns"@, ns_xhtml()),
            ("xmlns:epub"@, ns_ops()),
            ("lang"@, "en"@),
            ("xml:lang"@, "en"@),
        ],
        children: seq![coverpage_head_view(w, h), coverpage_body_view(href, w, h)],
    }
}

/// Builds the cover page document for a cover image at `href` whose size in
/// pixels is `dimensions`.
pub fn coverpage_content(href: &str, dimensions: (usize, usize)) -> (r: String)
    ensures
        r@ == xml_decl() + ser_tag(coverpage_view(href@, dimensions.0 as nat, dimensions.1 as nat)),
{
    let (width, height) = dimensions;
    proof {
        reveal_strlit("meta");
        reveal_strlit("title");
        reveal_strlit("link");
        reveal_strlit("head");
        reveal_strlit("svg");
        reveal_strlit("image");
        reveal_strlit("body");
        reveal_strlit("html");
    }
    let w_str = usize_to_string(width);
    let h_str = usize_to_string(height);

    let mut meta_charset = Tag::new("meta");
    meta_charset.attribute("charset", "utf-8");

    let mut viewport = String::from_str("width=");
    viewport.append(w_str.as_str());
    viewport.append(", height=");
    viewport.append(h_str.as_str());
    let mut meta_viewport = Tag::new("meta");
    meta_viewport.attribute("name", "viewport");
    meta_viewport.attribute("content", viewport.as_str());

    let mut title = Tag::new("title");
    push_text_child(&mut title, "Cover");

    let mut css_href = String::from_str("../");
    css_href.append(COVER_STYLESHEET);
    let mut link = Tag::new("link");
    link.attribute("rel", "stylesheet");
    link.attribute("type", "text/css");
    link.attribute("href", css_href.as_str());

    let mut head = Tag::new("head");
    proof {
        assert(meta_charset@.attrs =~= seq![("charset"@, "utf-8"@)]);
        assert(meta_viewport@.attrs =~= seq![("name"@, "viewport"@), ("content"@, viewport_content(width as nat, height as nat))]);
        assert(title@.children =~= seq![ChildView::Text("Cover"@)]);
        assert(link@.attrs =~= seq![
            ("rel"@, "stylesheet"@),
            ("type"@, "text/css"@),
            ("href"@, "../"@ + "style/coverstyle.css"@),
        ]);
    }
    let ghost mc = meta_charset@;
    let ghost mv = meta_viewport@;
    let ghost tt = title@;
    let ghost lk = link@;
    push_tag_child(&mut head, meta_charset);
    push_tag_child(&mut head, meta_viewport);
    push_tag_child(&mut head, title);
    push_tag_child(&mut head, link);
    proof {
        assert(head@.children =~= seq![
            ChildView::Tag(mc),
            ChildView::Tag(mv),
            ChildView::Tag(tt),
            ChildView::Tag(lk),
        ]);
        assert(coverpage_head_view(width as nat, height as nat) == ChildView::Tag(head@));
    }

    let mut viewbox = String::from_str("0 0 ");
    viewbox.append(w_str.as_str());
    viewbox.append(" ");
    viewbox.append(h_str.as_str());

    let mut img_href = String::from_str("../");
    img_href.append(href);
    let mut image = Tag::new("image");
    image.attribute("width", w_str.as_str());
    image.attribute("height", h_str.as_str());
    image.attribute("xlink:href", img_href.as_str());

    let mut svg = Tag::new("svg");
    svg.attribute("xmlns", "http://www.w3.org/2000/svg");
    svg.attribute("xmlns:xlink", "http://www.w3.org/1999/xlink");
    svg.attribute("version", "1.1");
    svg.attribute("viewBox", viewbox.as_str());
    svg.attribute("id", "cover");
    proof {
        assert(image@.attrs =~= seq![
            ("width"@, dec_str(width as nat)),
            ("height"@, dec_str(height as nat)),
            ("xlink:href"@, "../"@ + href@),
        ]);
        assert(svg@.attrs =~= seq![
            ("xmlns"@, ns_svg()),
            ("xmlns:xlink"@, ns_xlink()),
            ("version"@, "1.1"@),
            ("viewBox"@, viewbox_content(width as nat, height as nat)),
            ("id"@, "cover"@),
        ]);
    }
    let ghost imgv = image@;
    push_tag_child(&mut svg, image);

    let mut body = Tag::new("body");
    body.attribute("epub:type", "frontmatter cover");
    body.attribute("id", "coverpage");
    proof {
        assert(body@.attrs =~= seq![("epub:type"@, "frontmatter cover"@), ("id"@, "coverpage"@)]);
        assert(svg@.children =~= seq![ChildView::Tag(imgv)]);
    }
    let ghost svgv = svg@;
    push_tag_child(&mut body, svg);
    proof {
        assert(body@.children =~= seq![ChildView::Tag(svgv)]);
        assert(coverpage_body_view(href@, width as nat, height as nat) == ChildView::Tag(body@));
    }

    let mut html = Tag::new("html");
    html.attribute("xmlns", "http://www.w3.org/1999/xhtml");
    html.attribute("xmlns:epub", "http://www.idpf.org/2007/ops");
    html.attribute("lang", "en");
    html.attribute("xml:lang", "en");
    proof {
        assert(html@.attrs =~= seq![
            ("xmlns"@, ns_xhtml()),
            ("xmlns:epub"@, ns_ops()),
            ("lang"@, "en"@),
            ("xml:lang"@, "en"@),
        ]);
    }
    let ghost headv = head@;
    let ghost bodyv = body@;
    push_tag_child(&mut html, head);
    push_tag_child(&mut html, body);
    proof {
        assert(html@.children =~= seq![ChildView::Tag(headv), ChildView::Tag(bodyv)]);
        assert(html@ == coverpage_view(href@, width as nat, height as nat));
    }

    xhtml_content_from_html_tag(html)
}

/// The stylesheet rules that carry the two conventions: paragraphs default to
/// the highlight color, the reset class switches it off, and spoiler spans
/// mask their text with the spoiler color.
pub open spec fn stylesheet_rules(green: Seq<char>, spoiler: Seq<char>) -> Seq<char> {
    "p { color: "@ + green + "; }\n."@ + "icolor"@ + " { color: initial; }\np > span { background-color: "@
        + spoiler + "; color: transparent; }"@
}

/// Renders the stylesheet rules for the given highlight and spoiler colors,
/// as bytes ready to embed.
pub fn stylesheet_content(green_color: &str, spoiler_color: &str) -> (r: Vec<u8>)
    ensures
        r@ == encode_utf8(stylesheet_rules(green_color@, spoiler_color@)),
{
    let mut s = String::from_str("p { color: ");
    s.append(green_color);
    s.append("; }\n.");
    s.append(crate::parser::RESET_FOREGROUND_CLASS);
    s.append(" { color: initial; }\np > span { background-color: ");
    s.append(spoiler_color);
    s.append("; color: transparent; }");
    proof {
        assert(s@ == stylesheet_rules(green_color@, spoiler_color@));
    }
    s.as_str().as_bytes_vec()
}

/// Model of a paste document being assembled: its title and its body element.
pub struct PasteView {
    pub title: Seq<char>,
    pub body: TagView,
}

/// One paste's document under construction: a title and a body element that
/// collects one child per input line.
pub struct PasteContent {
    title: String,
    body: Tag,
}

impl View for PasteContent {
    type V = PasteView;

    closed spec fn view(&self) -> PasteView {
        PasteView { title: self.title@, body: self.body@ }
    }
}

/// The complete document wrapping a paste's body: fixed namespaces, a head
/// holding the title and the stylesheet link, then the body itself.
pub open spec fn paste_document_view(title: Seq<char>, body: TagView) -> TagView {
    TagView {
        name: "html"@,
        attrs: seq![
            ("xmlns"@, ns_xhtml()),
            ("xmlns:epub"@, ns_ops()),
            ("epub:prefix"@, "z3998: http://www.daisy.org/z3998/2012/vocab/structure/#"@),
            ("lang"@, "en"@),
            ("xml:lang"@, "en"@),
        ],
        children: seq![
            ChildView::Tag(
                TagView {
                    name: "head"@,
                    attrs: Seq::empty(),
                    children: seq![
                        ChildView::Tag(
                            TagView {
                                name: "title"@,
                                attrs: Seq::empty(),
                                children: seq![ChildView::Text(title)],
                            },
                        ),
                        ChildView::Tag(
                            TagView {
                                name: "link"@,
                                attrs: seq![
                                    ("href"@, "../stylesheet.css"@),
                                    ("rel"@, "stylesheet"@),
                                    ("type"@, "text/css"@),
                                ],
                                children: Seq::empty(),
                            },
                        ),
                    ],
                },
            ),
            ChildView::Tag(body),
        ],
    }
}

impl PasteContent {
    /// Starts an empty document body under the given title.
    pub fn new(title: &str) -> (r: PasteContent)
        ensures
            r@.title == title@,
            r@.body == (TagView {
                name: "body"@,
                attrs: Seq::<(Seq<char>, Seq<char>)>::empty(),
                children: Seq::<ChildView>::empty(),
            }),
    {
        proof {
            reveal_strlit("body");
        }
        PasteContent { title: title.to_owned(), body: Tag::new("body") }
    }

    /// Appends one line's element, a paragraph or a break, to the body.
    pub fn add_line(&mut self, child: Child)
        ensures
            final(self)@.title == old(self)@.title,
            final(self)@.body.name == old(self)@.body.name,
            final(self)@.body.attrs == old(self)@.body.attrs,
            final(self)@.body.children == old(self)@.body.children.push(child@),
    {
        self.body.child(child);
    }

    /// Wraps the collected body into the complete document and serializes it.
    pub fn build(self) -> (r: String)
        ensures
            r@ == xml_decl() + ser_tag(paste_document_view(self@.title, self@.body)),
    {
        let ghost selfv = self@;
        let PasteContent { title, body } = self;

        proof {
            reveal_strlit("title");
            reveal_strlit("link");
            reveal_strlit("head");
            reveal_strlit("html");
        }
        let mut title_tag = Tag::new("title");
        let ghost titlev = title@;
        let tc = Child::Text(title);
        proof {
            lemma_text_child_view(tc->Text_0);
        }
        title_tag.child(tc);

        let mut link = Tag::new("link");
        link.attribute("href", "../stylesheet.css");
        link.attribute("rel", "stylesheet");
        link.attribute("type", "text/css");

        let mut head = Tag::new("head");
        proof {
            assert(title_tag@.children =~= seq![ChildView::Text(titlev)]);
            assert(link@.attrs =~= seq![
                ("href"@, "../stylesheet.css"@),
                ("rel"@, "stylesheet"@),
                ("type"@, "text/css"@),
            ]);
        }
        let ghost ttv = title_tag@;
        let ghost lkv = link@;
        push_tag_child(&mut head, title_tag);
        push_tag_child(&mut head, link);

        let mut html = Tag::new("html");
        html.attribute("xmlns", "http://www.w3.org/1999/xhtml");
        html.attribute("xmlns:epub", "http://www.idpf.org/2007/ops");
        html.attribute("epub:prefix", "z3998: http://www.daisy.org/z3998/2012/vocab/structure/#");
        html.attribute("lang", "en");
        html.attribute("xml:lang", "en");
        proof {
            assert(html@.attrs =~= seq![
                ("xmlns"@, ns_xhtml()),
                ("xmlns:epub"@, ns_ops()),
                ("epub:prefix"@, "z3998: http://www.daisy.org/z3998/2012/vocab/structure/#"@),
                ("lang"@, "en"@),
                ("xml:lang"@, "en"@),
            ]);
            assert(head@.children =~= seq![ChildView::Tag(ttv), ChildView::Tag(lkv)]);
        }
        let ghost headv = head@;
        let ghost bodyv = body@;
        push_tag_child(&mut html, head);
        push_tag_child(&mut html, body);
        proof {
            assert(html@.children =~= seq![ChildView::Tag(headv), ChildView::Tag(bodyv)]);
            assert(html@ == paste_document_view(selfv.title, selfv.body));
        }

        xhtml_content_from_html_tag(html)
    }
}

} // verus!
