//! A minimal markup tree: named elements with attributes and children, where a
//! child is either a nested element or raw text. Serialization escapes text
//! and attribute values; the tree itself always stores the raw strings.

use crate::text::decoded;
use crate::text::escape_attr;
use crate::text::escape_text;
use crate::text::escaped_attr;
use crate::text::escaped_text;
use crate::text::lemma_attr_escape_round_trip;
use crate::text::lemma_text_escape_round_trip;
use crate::text::push_char;
use vstd::prelude::*;
use vstd::string::StringExecFns;

verus! {

/// Mathematical model of a child node: a nested element or a raw text run.
pub enum ChildView {
    Tag(TagView),
    Text(Seq<char>),
}

/// Mathematical model of an element: its name, its attribute pairs in
/// insertion order (duplicates allowed), and its children in insertion order.
pub struct TagView {
    pub name: Seq<char>,
    pub attrs: Seq<(Seq<char>, Seq<char>)>,
    pub children: Seq<ChildView>,
}

/// One node of the markup tree.
#[derive(Debug, PartialEq)]
pub enum Child {
    Tag(Tag),
    Text(String),
}

/// A named element with attributes and children.
#[derive(Debug, PartialEq)]
pub struct Tag {
    name: String,
    attributes: Vec<(String, String)>,
    children: Vec<Child>,
}

pub closed spec fn child_view(c: Child) -> ChildView
    decreases c, 0nat,
{
    match c {
        Child::Tag(t) => ChildView::Tag(tag_view(t)),
        Child::Text(s) => ChildView::Text(s@),
    }
}

pub closed spec fn children_views(cs: Seq<Child>, n: int) -> Seq<ChildView>
    decreases cs, n,
{
    if n <= 0 || n > cs.len() {
        Seq::empty()
    } else {
        children_views(cs, n - 1).push(child_view(cs[n - 1]))
    }
}

pub closed spec fn attrs_view(ats: Seq<(String, String)>) -> Seq<(Seq<char>, Seq<char>)> {
    Seq::new(ats.len(), |i: int| (ats[i].0@, ats[i].1@))
}

pub closed spec fn tag_view(t: Tag) -> TagView
    decreases t, 1nat,
{
    TagView {
        name: t.name@,
        attrs: attrs_view(t.attributes@),
        children: children_views(t.children@, t.children@.len() as int),
    }
}

impl View for Tag {
    type V = TagView;

    open spec fn view(&self) -> TagView {
        tag_view(*self)
    }
}

impl View for Child {
    type V = ChildView;

    open spec fn view(&self) -> ChildView {
        child_view(*self)
    }
}

impl Tag {
    /// Creates an element with the given name, no attributes and no children.
    /// The name must be non-empty; it is not validated further.
    pub fn new(name: &str) -> (t: Tag)
        requires
            name@.len() > 0,
        ensures
            t@ == (TagView { name: name@, attrs: Seq::<(Seq<char>, Seq<char>)>::empty(), children: Seq::<ChildView>::empty() }),
    {
        let t = Tag { name: name.to_owned(), attributes: Vec::new(), children: Vec::new() };
        proof {
            assert(t@.attrs =~= Seq::<(Seq<char>, Seq<char>)>::empty());
            assert(t@.children =~= Seq::<ChildView>::empty());
        }
        t
    }

    /// Appends an attribute pair; pairs are kept in call order and never
    /// deduplicated.
    pub fn attribute(&mut self, name: &str, value: &str)
        ensures
            final(self)@.name == old(self)@.name,
            final(self)@.attrs == old(self)@.attrs.push((name@, value@)),
            final(self)@.children == old(self)@.children,
    {
        self.attributes.push((name.to_owned(), value.to_owned()));
        proof {
            assert(self@.attrs =~= old(self)@.attrs.push((name@, value@)));
        }
    }

    /// Appends a child, element or text, at the end of the children sequence.
    pub fn child(&mut self, c: Child)
        ensures
            final(self)@.name == old(self)@.name,
            final(self)@.attrs == old(self)@.attrs,
            final(self)@.children == old(self)@.children.push(c@),
    {
        self.children.push(c);
        proof {
            lemma_children_views_snoc(old(self).children@, self.children@);
            assert(self@.attrs =~= old(self)@.attrs);
        }
    }
}

impl From<Tag> for Child {
    /// An element becomes an element child.
    fn from(t: Tag) -> Child {
        Child::Tag(t)
    }
}

impl vstd::std_specs::convert::FromSpecImpl<Tag> for Child {
    open spec fn obeys_from_spec() -> bool {
        true
    }

    open spec fn from_spec(t: Tag) -> Child {
        Child::Tag(t)
    }
}

impl From<String> for Child {
    /// A string becomes a raw text child; it is escaped only at serialization.
    fn from(text: String) -> Child {
        Child::Text(text)
    }
}

impl vstd::std_specs::convert::FromSpecImpl<String> for Child {
    open spec fn obeys_from_spec() -> bool {
        true
    }

    open spec fn from_spec(text: String) -> Child {
        Child::Text(text)
    }
}

/// A text child's view is the view of its string.
pub proof fn lemma_text_child_view(s: String)
    ensures
        child_view(Child::Text(s)) == ChildView::Text(s@),
{
}

/// An element child's view is the view of its element.
pub proof fn lemma_tag_child_view(t: Tag)
    ensures
        child_view(Child::Tag(t)) == ChildView::Tag(t@),
{
}

/// One serialized attribute: a space, the name, `="`, the escaped value, `"`.
pub open spec fn ser_attr(a: (Seq<char>, Seq<char>)) -> Seq<char> {
    seq![' '] + a.0 + seq!['=', '"'] + escaped_attr(a.1) + seq!['"']
}

/// The first `n` attributes, serialized in order.
pub open spec fn ser_attrs(ats: Seq<(Seq<char>, Seq<char>)>, n: int) -> Seq<char>
    decreases n,
{
    if n <= 0 || n > ats.len() {
        Seq::empty()
    } else {
        ser_attrs(ats, n - 1) + ser_attr(ats[n - 1])
    }
}

/// One serialized child: escaped text, or a nested element.
pub open spec fn ser_child(c: ChildView) -> Seq<char>
    decreases c, 0nat,
{
    match c {
        ChildView::Tag(t) => ser_tag(t),
        ChildView::Text(s) => escaped_text(s),
    }
}

/// The first `n` children, serialized in order.
pub open spec fn ser_children(cs: Seq<ChildView>, n: int) -> Seq<char>
    decreases cs, n,
{
    if n <= 0 || n > cs.len() {
        Seq::empty()
    } else {
        ser_children(cs, n - 1) + ser_child(cs[n - 1])
    }
}

/// A serialized element: self-closing when it has no children, and an explicit
/// open/close tag pair around the serialized children otherwise.
pub open spec fn ser_tag(t: TagView) -> Seq<char>
    decreases t, 1nat,
{
    let head = seq!['<'] + t.name + ser_attrs(t.attrs, t.attrs.len() as int);
    if t.children.len() == 0 {
        head + seq!['/', '>']
    } else {
        head + seq!['>'] + ser_children(t.children, t.children.len() as int) + seq!['<', '/']
            + t.name + seq!['>']
    }
}

/// A text child contributes exactly the one-pass escaping of its raw text to
/// the serialized output. The tree always stores raw text and escaping happens
/// at serialization alone, so serializing repeatedly never escapes twice:
/// decoding what one serialization emitted gives the raw text back.
pub proof fn lemma_text_child_escaped_once(s: Seq<char>)
    ensures
        ser_child(ChildView::Text(s)) == escaped_text(s),
        decoded(ser_child(ChildView::Text(s))) == s,
{
    lemma_text_escape_round_trip(s);
}

/// An attribute contributes its name and the one-pass escaping of its raw
/// value: decoding the emitted value part gives the raw value back, so a
/// conformant markup parser reading the serialized attribute reproduces it.
pub proof fn lemma_attr_escaped_once(name: Seq<char>, value: Seq<char>)
    ensures
        ser_attr((name, value)) == seq![' '] + name + seq!['=', '"'] + escaped_attr(value)
            + seq!['"'],
        decoded(escaped_attr(value)) == value,
{
    lemma_attr_escape_round_trip(value);
}

impl Tag {
    /// Serializes the tree to its escaped markup string. Reads the tree only:
    /// the same tree always serializes to the same string.
    pub fn serialize(&self) -> (r: String)
        ensures
            r@ == ser_tag(self@),
        decreases *self,
    {
        let mut r = String::new();
        push_char(&mut r, '<');
        r.append(self.name.as_str());
        proof {
            assert(r@ =~= seq!['<'] + self@.name);
        }
        let ghost head_open = r@;

        let n_attrs = self.attributes.len();
        let mut i: usize = 0;
        while i < n_attrs
            invariant
                i <= n_attrs,
                n_attrs == self.attributes.len(),
                r@ == head_open + ser_attrs(self@.attrs, i as int),
                head_open == seq!['<'] + self@.name,
                self@ == tag_view(*self),
            decreases n_attrs - i,
        {
            proof {
                assert(self@.attrs[i as int] == (self.attributes@[i as int].0@, self.attributes@[i as int].1@));
            }
            push_char(&mut r, ' ');
            r.append(self.attributes[i].0.as_str());
            r.append("=\"");
            let ev = escape_attr(self.attributes[i].1.as_str());
            r.append(ev.as_str());
            push_char(&mut r, '"');
            proof {
                reveal_strlit("=\"");
                assert("=\""@ =~= seq!['=', '"']);
                assert(r@ =~= head_open + ser_attrs(self@.attrs, i as int) + ser_attr(self@.attrs[i as int]));
                assert(self@.attrs.len() == self.attributes@.len());
            }
            i += 1;
        }
        let ghost head = r@;
        proof {
            assert(head == seq!['<'] + self@.name + ser_attrs(self@.attrs, self@.attrs.len() as int));
        }

        if self.children.len() == 0 {
            r.append("/>");
            proof {
                reveal_strlit("/>");
                assert("/>"@ =~= seq!['/', '>']);
                assert(self@.children.len() == 0);
                assert(r@ =~= ser_tag(self@));
            }
            return r;
        }

        push_char(&mut r, '>');
        let n_children = self.children.len();
        let mut j: usize = 0;
        while j < n_children
            invariant
                j <= n_children,
                n_children == self.children.len(),
                r@ == head + seq!['>'] + ser_children(self@.children, j as int),
                head == seq!['<'] + self@.name + ser_attrs(self@.attrs, self@.attrs.len() as int),
                self@ == tag_view(*self),
            decreases n_children - j,
        {
            proof {
                lemma_children_views_index(self.children@, self.children@.len() as int, j as int);
                assert(self@.children[j as int] == child_view(self.children@[j as int]));
            }
            match &self.children[j] {
                Child::Text(s) => {
                    let es = escape_text(s.as_str());
                    r.append(es.as_str());
                },
                Child::Tag(t) => {
                    proof {
                        assert(decreases_to!(*self => *t));
                    }
                    let st = t.serialize();
                    r.append(st.as_str());
                },
            }
            proof {
                assert(r@ =~= head + seq!['>'] + ser_children(self@.children, j as int) + ser_child(self@.children[j as int]));
                assert(self@.children.len() == self.children@.len());
            }
            j += 1;
        }
        r.append("</");
        r.append(self.name.as_str());
        push_char(&mut r, '>');
        proof {
            reveal_strlit("</");
            assert("</"@ =~= seq!['<', '/']);
            lemma_children_views_len(self.children@, self.children@.len() as int);
            assert(self@.children.len() == n_children);
            assert(self@.children.len() > 0);
            assert(r@ =~= ser_tag(self@));
        }
        r
    }
}

/// Indexing into the views of the first `n` children gives the view of the
/// child at that index.
proof fn lemma_children_views_index(cs: Seq<Child>, n: int, j: int)
    requires
        0 <= j < n <= cs.len(),
    ensures
        children_views(cs, n).len() == n,
        children_views(cs, n)[j] == child_view(cs[j]),
    decreases n,
{
    lemma_children_views_len(cs, n);
    lemma_children_views_len(cs, n - 1);
    if j < n - 1 {
        lemma_children_views_index(cs, n - 1, j);
    }
}

/// The views of the first `n` children number exactly `n`.
proof fn lemma_children_views_len(cs: Seq<Child>, n: int)
    requires
        0 <= n <= cs.len(),
    ensures
        children_views(cs, n).len() == n,
    decreases n,
{
    if n > 0 {
        lemma_children_views_len(cs, n - 1);
    }
}

/// The views of the first `n` children do not depend on entries at or past `n`.
proof fn lemma_children_views_prefix(a: Seq<Child>, b: Seq<Child>, n: int)
    requires
        0 <= n <= a.len(),
        n <= b.len(),
        forall|i: int| 0 <= i < n ==> a[i] == b[i],
    ensures
        children_views(a, n) == children_views(b, n),
    decreases n,
{
    if n > 0 {
        lemma_children_views_prefix(a, b, n - 1);
    }
}

/// Pushing a child appends exactly its view to the children views.
proof fn lemma_children_views_snoc(a: Seq<Child>, b: Seq<Child>)
    requires
        b.len() == a.len() + 1,
        forall|i: int| 0 <= i < a.len() ==> a[i] == b[i],
    ensures
        children_views(b, b.len() as int) == children_views(a, a.len() as int).push(child_view(b[a.len() as int])),
{
    lemma_children_views_prefix(a, b, a.len() as int);
}

} // verus!

