//! The line parser: one call per input line, producing one paragraph element,
//! while a single boolean of spoiler state carries across lines. A line is
//! first tokenized against the two literal spoiler markers, then the tokens
//! are folded into the paragraph under the current spoiler state.

use crate::tag::Child;
use crate::tag::ChildView;
use crate::tag::Tag;
use crate::tag::TagView;
use crate::tag::lemma_tag_child_view;
use crate::tag::lemma_text_child_view;
use crate::text::chars_of;
use crate::text::string_from_range;
use vstd::prelude::*;
use vstd::string::StrSliceExecFns;
use vstd::string::StringExecFns;

verus! {

/// The class attribute value that exempts a paragraph from the default
/// highlight styling.
pub const RESET_FOREGROUND_CLASS: &'static str = "icolor";

/// The literal marker that opens a spoiler span.
pub open spec fn open_marker() -> Seq<char> {
    seq!['[', 's', 'p', 'o', 'i', 'l', 'e', 'r', ']']
}

/// The literal marker that closes a spoiler span.
pub open spec fn close_marker() -> Seq<char> {
    seq!['[', '/', 's', 'p', 'o', 'i', 'l', 'e', 'r', ']']
}

/// The opening marker occurs at position `i`.
pub open spec fn open_at(s: Seq<char>, i: int) -> bool {
    0 <= i && i + 9 <= s.len() && s.subrange(i, i + 9) == open_marker()
}

/// The closing marker occurs at position `i`.
pub open spec fn close_at(s: Seq<char>, i: int) -> bool {
    0 <= i && i + 10 <= s.len() && s.subrange(i, i + 10) == close_marker()
}

/// Model of one token of a line.
pub enum TokenView {
    SpoilerOpen,
    SpoilerClose,
    Text(Seq<char>),
}

/// One token of a line: an occurrence of either spoiler marker, or a maximal
/// run of text between markers.
#[derive(Debug, PartialEq)]
pub enum Token {
    SpoilerOpen,
    SpoilerClose,
    Text(String),
}

impl View for Token {
    type V = TokenView;

    open spec fn view(&self) -> TokenView {
        match self {
            Token::SpoilerOpen => TokenView::SpoilerOpen,
            Token::SpoilerClose => TokenView::SpoilerClose,
            Token::Text(t) => TokenView::Text(t@),
        }
    }
}

/// The views of a sequence of tokens.
pub open spec fn tokens_views(ts: Seq<Token>) -> Seq<TokenView> {
    Seq::new(ts.len(), |i: int| ts[i]@)
}

/// Joins a run of text onto the front of a token sequence: an empty run adds
/// nothing, and a run followed by more text merges with it, so text tokens are
/// always maximal and never empty.
pub open spec fn prepend_text(t: Seq<char>, toks: Seq<TokenView>) -> Seq<TokenView> {
    if t.len() == 0 {
        toks
    } else if toks.len() > 0 && toks[0] is Text {
        seq![TokenView::Text(t + toks[0]->Text_0)] + toks.skip(1)
    } else {
        seq![TokenView::Text(t)] + toks
    }
}

/// The tokens of a line: scanning left to right, whichever marker occurs
/// first is consumed first, and the text between and around markers forms
/// maximal, non-empty text tokens.
pub open spec fn spec_tokenize(s: Seq<char>) -> Seq<TokenView>
    decreases s.len(),
{
    if s.len() == 0 {
        Seq::empty()
    } else if open_at(s, 0) {
        seq![TokenView::SpoilerOpen] + spec_tokenize(s.skip(9))
    } else if close_at(s, 0) {
        seq![TokenView::SpoilerClose] + spec_tokenize(s.skip(10))
    } else {
        prepend_text(seq![s[0]], spec_tokenize(s.skip(1)))
    }
}

/// A marker occurs at `i` in `s` exactly when it occurs at the front of the
/// rest of `s` from `i` on.
proof fn lemma_marker_shift(s: Seq<char>, i: int)
    requires
        0 <= i <= s.len(),
    ensures
        open_at(s.skip(i), 0) == open_at(s, i),
        close_at(s.skip(i), 0) == close_at(s, i),
{
    if i + 9 <= s.len() {
        assert(s.skip(i).subrange(0, 9) =~= s.subrange(i, i + 9));
    }
    if i + 10 <= s.len() {
        assert(s.skip(i).subrange(0, 10) =~= s.subrange(i, i + 10));
    }
}

/// Joining two text runs one after the other onto a token sequence is the
/// same as joining their concatenation.
proof fn lemma_prepend_text_concat(a: Seq<char>, b: Seq<char>, toks: Seq<TokenView>)
    ensures
        prepend_text(a, prepend_text(b, toks)) == prepend_text(a + b, toks),
{
    if a.len() == 0 {
        assert(a + b =~= b);
    } else if b.len() == 0 {
        assert(a + b =~= a);
    } else {
        let ab = a + b;
        assert(ab.len() > 0);
        if toks.len() > 0 && toks[0] is Text {
            assert(a + (b + toks[0]->Text_0) =~= ab + toks[0]->Text_0);
            assert(prepend_text(b, toks)[0] is Text);
            assert(prepend_text(b, toks)[0]->Text_0 == b + toks[0]->Text_0);
            assert(prepend_text(b, toks).skip(1) =~= toks.skip(1));
            assert(prepend_text(a, prepend_text(b, toks)) =~= prepend_text(a + b, toks));
        } else {
            assert(prepend_text(b, toks) == seq![TokenView::Text(b)] + toks);
            assert(prepend_text(b, toks)[0] == TokenView::Text(b));
            assert(prepend_text(b, toks).skip(1) =~= toks);
            assert(a + b =~= ab);
            assert(prepend_text(a, prepend_text(b, toks)) =~= prepend_text(a + b, toks));
        }
    }
}

/// Whether the opening marker occurs at position `i` of the character vector.
fn is_open_marker_at(chars: &Vec<char>, i: usize) -> (b: bool)
    requires
        i <= chars@.len(),
    ensures
        b == open_at(chars@, i as int),
{
    if chars.len() - i < 9 {
        return false;
    }
    let b = chars[i] == '[' && chars[i + 1] == 's' && chars[i + 2] == 'p' && chars[i + 3] == 'o'
        && chars[i + 4] == 'i' && chars[i + 5] == 'l' && chars[i + 6] == 'e' && chars[i + 7] == 'r'
        && chars[i + 8] == ']';
    proof {
        let sub = chars@.subrange(i as int, i as int + 9);
        assert(forall|k: int| 0 <= k < 9 ==> sub[k] == chars@[i + k]);
        if b {
            assert(sub =~= open_marker());
        }
    }
    b
}

/// Whether the closing marker occurs at position `i` of the character vector.
fn is_close_marker_at(chars: &Vec<char>, i: usize) -> (b: bool)
    requires
        i <= chars@.len(),
    ensures
        b == close_at(chars@, i as int),
{
    if chars.len() - i < 10 {
        return false;
    }
    let b = chars[i] == '[' && chars[i + 1] == '/' && chars[i + 2] == 's' && chars[i + 3] == 'p'
        && chars[i + 4] == 'o' && chars[i + 5] == 'i' && chars[i + 6] == 'l' && chars[i + 7] == 'e'
        && chars[i + 8] == 'r' && chars[i + 9] == ']';
    proof {
        let sub = chars@.subrange(i as int, i as int + 10);
        assert(forall|k: int| 0 <= k < 10 ==> sub[k] == chars@[i + k]);
        if b {
            assert(sub =~= close_marker());
        }
    }
    b
}

/// Builds a text token from the characters in `[from, to)`.
fn text_token(chars: &Vec<char>, from: usize, to: usize) -> (t: Token)
    requires
        from <= to <= chars@.len(),
    ensures
        t@ == TokenView::Text(chars@.subrange(from as int, to as int)),
{
    Token::Text(string_from_range(chars, from, to))
}

/// Splits one line into its tokens: occurrences of the two spoiler markers,
/// in left-to-right order, and the maximal runs of text between them. No
/// empty text token is ever produced.
pub fn tokenize(line: &str) -> (r: Vec<Token>)
    ensures
        tokens_views(r@) == spec_tokenize(line@),
{
    let chars = chars_of(line);
    let ghost s = line@;
    let n = chars.len();
    let mut toks: Vec<Token> = Vec::new();
    let mut start: usize = 0;
    let mut i: usize = 0;
    proof {
        assert(s.skip(0) =~= s);
        assert(s.subrange(0, 0) =~= Seq::<char>::empty());
        assert(tokens_views(toks@) =~= Seq::<TokenView>::empty());
        assert(tokens_views(toks@) + prepend_text(s.subrange(0, 0), spec_tokenize(s.skip(0)))
            =~= spec_tokenize(s));
    }
    while i < n
        invariant
            start <= i <= n,
            n == s.len(),
            chars@ == s,
            spec_tokenize(s) == tokens_views(toks@) + prepend_text(
                s.subrange(start as int, i as int),
                spec_tokenize(s.skip(i as int)),
            ),
        decreases n - i,
    {
        proof {
            lemma_marker_shift(s, i as int);
        }
        let ghost pending = s.subrange(start as int, i as int);
        let ghost rest = s.skip(i as int);
        if is_open_marker_at(&chars, i) {
            if start < i {
                let t = text_token(&chars, start, i);
                toks.push(t);
            }
            toks.push(Token::SpoilerOpen);
            proof {
                assert(rest.len() > 0);
                assert(spec_tokenize(rest) == seq![TokenView::SpoilerOpen] + spec_tokenize(rest.skip(9)));
                assert(rest.skip(9) =~= s.skip(i + 9 as int));
                assert(s.subrange(i + 9 as int, i + 9 as int) =~= Seq::<char>::empty());
                assert(spec_tokenize(s) =~= tokens_views(toks@) + prepend_text(
                    s.subrange(i + 9 as int, i + 9 as int),
                    spec_tokenize(s.skip(i + 9 as int)),
                ));
            }
            i = i + 9;
            start = i;
        } else if is_close_marker_at(&chars, i) {
            if start < i {
                let t = text_token(&chars, start, i);
                toks.push(t);
            }
            toks.push(Token::SpoilerClose);
            proof {
                assert(rest.len() > 0);
                assert(spec_tokenize(rest) == seq![TokenView::SpoilerClose] + spec_tokenize(rest.skip(10)));
                assert(rest.skip(10) =~= s.skip(i + 10 as int));
                assert(s.subrange(i + 10 as int, i + 10 as int) =~= Seq::<char>::empty());
                assert(spec_tokenize(s) =~= tokens_views(toks@) + prepend_text(
                    s.subrange(i + 10 as int, i + 10 as int),
                    spec_tokenize(s.skip(i + 10 as int)),
                ));
            }
            i = i + 10;
            start = i;
        } else {
            proof {
                assert(rest.len() > 0);
                assert(rest[0] == s[i as int]);
                assert(spec_tokenize(rest) == prepend_text(seq![s[i as int]], spec_tokenize(rest.skip(1))));
                assert(rest.skip(1) =~= s.skip(i + 1 as int));
                lemma_prepend_text_concat(pending, seq![s[i as int]], spec_tokenize(s.skip(i + 1 as int)));
                assert(pending + seq![s[i as int]] =~= s.subrange(start as int, i + 1 as int));
            }
            i = i + 1;
        }
    }
    if start < n {
        let t = text_token(&chars, start, n);
        toks.push(t);
    }
    proof {
        assert(s.skip(n as int) =~= Seq::<char>::empty());
        assert(spec_tokenize(s.skip(n as int)) == Seq::<TokenView>::empty());
        if start < n {
            assert(prepend_text(s.subrange(start as int, n as int), Seq::<TokenView>::empty())
                =~= seq![TokenView::Text(s.subrange(start as int, n as int))]);
        } else {
            assert(s.subrange(start as int, n as int).len() == 0);
        }
        assert(tokens_views(toks@) =~= spec_tokenize(s));
    }
    toks
}

/// The view of a spoiler span holding the text `t`.
pub open spec fn span_view(t: Seq<char>) -> ChildView {
    ChildView::Tag(
        TagView {
            name: "span"@,
            attrs: Seq::empty(),
            children: seq![ChildView::Text(t)],
        },
    )
}

/// Folds tokens into paragraph children, left to right. While a spoiler is
/// open, text gathers in `buf` and comes out as a single span when the
/// spoiler closes or the line ends; an empty gathered run produces no span at
/// all. A stray opening marker inside an open spoiler joins the gathered
/// text literally, and a stray closing marker outside one becomes literal
/// plain text.
pub open spec fn fold_children(toks: Seq<TokenView>, open: bool, buf: Seq<char>) -> Seq<ChildView>
    decreases toks.len(),
{
    if toks.len() == 0 {
        if open && buf.len() > 0 {
            seq![span_view(buf)]
        } else {
            Seq::empty()
        }
    } else {
        match toks[0] {
            TokenView::Text(t) => if open {
                fold_children(toks.skip(1), true, buf + t)
            } else {
                seq![ChildView::Text(t)] + fold_children(toks.skip(1), false, Seq::empty())
            },
            TokenView::SpoilerOpen => if open {
                fold_children(toks.skip(1), true, buf + open_marker())
            } else {
                fold_children(toks.skip(1), true, Seq::empty())
            },
            TokenView::SpoilerClose => if open {
                (if buf.len() > 0 {
                    seq![span_view(buf)]
                } else {
                    Seq::empty()
                }) + fold_children(toks.skip(1), false, Seq::empty())
            } else {
                seq![ChildView::Text(close_marker())] + fold_children(toks.skip(1), false, Seq::empty())
            },
        }
    }
}

/// The spoiler state left after folding the tokens: each marker sets it,
/// whatever the state was; text leaves it alone.
pub open spec fn fold_state(toks: Seq<TokenView>, open: bool) -> bool
    decreases toks.len(),
{
    if toks.len() == 0 {
        open
    } else {
        match toks[0] {
            TokenView::Text(_) => fold_state(toks.skip(1), open),
            TokenView::SpoilerOpen => fold_state(toks.skip(1), true),
            TokenView::SpoilerClose => fold_state(toks.skip(1), false),
        }
    }
}

/// The first text token of a token sequence, if any.
pub open spec fn first_text(toks: Seq<TokenView>) -> Option<Seq<char>>
    decreases toks.len(),
{
    if toks.len() == 0 {
        None
    } else {
        match toks[0] {
            TokenView::Text(t) => Some(t),
            TokenView::SpoilerOpen => first_text(toks.skip(1)),
            TokenView::SpoilerClose => first_text(toks.skip(1)),
        }
    }
}

/// A paragraph carries the highlight-reset class exactly when the line's
/// first text token does not start with the quote character `>`. A line with
/// no text at all keeps the default highlight.
pub open spec fn line_resets_highlight(s: Seq<char>) -> bool {
    match first_text(spec_tokenize(s)) {
        Some(t) => !(t.len() > 0 && t[0] == '>'),
        None => false,
    }
}

/// The paragraph produced for the line `s` when the spoiler state on entry is
/// `open`.
pub open spec fn line_paragraph(s: Seq<char>, open: bool) -> TagView {
    TagView {
        name: "p"@,
        attrs: if line_resets_highlight(s) {
            seq![("class"@, "icolor"@)]
        } else {
            Seq::empty()
        },
        children: fold_children(spec_tokenize(s), open, Seq::empty()),
    }
}

/// The spoiler state left after parsing the line `s` with entry state `open`.
pub open spec fn line_final_state(s: Seq<char>, open: bool) -> bool {
    fold_state(spec_tokenize(s), open)
}

/// Decides the highlight-reset class from the token list.
fn line_reset_flag(toks: &Vec<Token>) -> (r: bool)
    ensures
        r == match first_text(tokens_views(toks@)) {
            Some(t) => !(t.len() > 0 && t[0] == '>'),
            None => false,
        },
{
    let ghost tv = tokens_views(toks@);
    let n = toks.len();
    let mut k: usize = 0;
    proof {
        assert(tv.skip(0) =~= tv);
    }
    while k < n
        invariant
            k <= n,
            n == toks@.len(),
            tv == tokens_views(toks@),
            first_text(tv) == first_text(tv.skip(k as int)),
        decreases n - k,
    {
        proof {
            assert(tv.skip(k as int).len() > 0);
            assert(tv.skip(k as int)[0] == tv[k as int]);
            assert(tv.skip(k as int).skip(1) =~= tv.skip(k + 1 as int));
        }
        match &toks[k] {
            Token::Text(t) => {
                proof {
                    assert(first_text(tv) == Some(t@));
                }
                if t.unicode_len() > 0 {
                    return t.get_char(0) != '>';
                } else {
                    return true;
                }
            },
            _ => {},
        }
        k += 1;
    }
    proof {
        assert(tv.skip(n as int) =~= Seq::<TokenView>::empty());
    }
    false
}

/// A line without markers tokenizes to a single text token holding the whole
/// line.
proof fn lemma_no_marker_tokenize(s: Seq<char>)
    requires
        s.len() > 0,
        forall|i: int| #![trigger open_at(s, i)] #![trigger close_at(s, i)] !open_at(s, i) && !close_at(s, i),
    ensures
        spec_tokenize(s) == seq![TokenView::Text(s)],
    decreases s.len(),
{
    assert(!open_at(s, 0));
    assert(!close_at(s, 0));
    if s.len() == 1 {
        assert(s.skip(1) =~= Seq::<char>::empty());
        assert(spec_tokenize(s.skip(1)) == Seq::<TokenView>::empty());
        assert(seq![s[0]] =~= s);
        assert(spec_tokenize(s) =~= seq![TokenView::Text(s)]);
    } else {
        let r = s.skip(1);
        assert forall|i: int| #![trigger open_at(r, i)] #![trigger close_at(r, i)]
            !open_at(r, i) && !close_at(r, i) by {
            if 0 <= i && i + 9 <= r.len() {
                assert(r.subrange(i, i + 9) =~= s.subrange(i + 1, i + 10));
                assert(!open_at(s, i + 1));
            }
            if 0 <= i && i + 10 <= r.len() {
                assert(r.subrange(i, i + 10) =~= s.subrange(i + 1, i + 11));
                assert(!close_at(s, i + 1));
            }
        }
        lemma_no_marker_tokenize(r);
        let rest = spec_tokenize(r);
        assert(rest[0] is Text);
        assert(spec_tokenize(s) == seq![TokenView::Text(seq![s[0]] + rest[0]->Text_0)] + rest.skip(1));
        assert(rest.skip(1) =~= Seq::<TokenView>::empty());
        assert(seq![s[0]] + r =~= s);
        assert(spec_tokenize(s) =~= seq![TokenView::Text(s)]);
    }
}

/// A line with no spoiler markers whose first character is not the quote
/// character parses, while no spoiler is open, to a paragraph carrying the
/// highlight-reset class and a single text child equal to the whole line, and
/// leaves the spoiler closed.
pub proof fn lemma_plain_line_paragraph(s: Seq<char>)
    requires
        s.len() > 0,
        s[0] != '>',
        forall|i: int| #![trigger open_at(s, i)] #![trigger close_at(s, i)] !open_at(s, i) && !close_at(s, i),
    ensures
        line_paragraph(s, false) == (TagView {
            name: "p"@,
            attrs: seq![("class"@, "icolor"@)],
            children: seq![ChildView::Text(s)],
        }),
        line_final_state(s, false) == false,
{
    lemma_no_marker_tokenize(s);
    let toks = spec_tokenize(s);
    assert(toks.skip(1) =~= Seq::<TokenView>::empty());
    assert(first_text(toks) == Some(s));
    assert(fold_children(toks, false, Seq::empty())
        =~= seq![ChildView::Text(s)] + fold_children(toks.skip(1), false, Seq::empty()));
    assert(fold_children(toks, false, Seq::empty()) =~= seq![ChildView::Text(s)]);
    assert(fold_state(toks, false) == fold_state(toks.skip(1), false));
    assert(fold_state(Seq::<TokenView>::empty(), false) == false);
}

/// A line with no spoiler markers whose first character is the quote
/// character keeps the default highlight: its paragraph carries no attribute,
/// whatever the spoiler state on entry.
pub proof fn lemma_quote_line_keeps_highlight(s: Seq<char>, open: bool)
    requires
        s.len() > 0,
        s[0] == '>',
        forall|i: int| #![trigger open_at(s, i)] #![trigger close_at(s, i)] !open_at(s, i) && !close_at(s, i),
    ensures
        line_paragraph(s, open).attrs == Seq::<(Seq<char>, Seq<char>)>::empty(),
{
    lemma_no_marker_tokenize(s);
    assert(first_text(spec_tokenize(s)) == Some(s));
}

/// What a parsed paragraph may hold as a child: a non-empty text run, or a
/// spoiler span holding one non-empty text run.
pub open spec fn nonempty_child(c: ChildView) -> bool {
    ||| (c is Text && c->Text_0.len() > 0)
    ||| (exists|u: Seq<char>| u.len() > 0 && c == span_view(u))
}

/// Every text token the tokenizer emits is non-empty.
proof fn lemma_tokenize_text_nonempty(s: Seq<char>)
    ensures
        forall|k: int|
            0 <= k < spec_tokenize(s).len() && spec_tokenize(s)[k] is Text
                ==> spec_tokenize(s)[k]->Text_0.len() > 0,
    decreases s.len(),
{
    if s.len() == 0 {
    } else if open_at(s, 0) {
        lemma_tokenize_text_nonempty(s.skip(9));
    } else if close_at(s, 0) {
        lemma_tokenize_text_nonempty(s.skip(10));
    } else {
        lemma_tokenize_text_nonempty(s.skip(1));
        let rest = spec_tokenize(s.skip(1));
        let toks = spec_tokenize(s);
        assert(toks == prepend_text(seq![s[0]], rest));
        if rest.len() > 0 && rest[0] is Text {
            assert(forall|k: int| 1 <= k < toks.len() ==> toks[k] == rest[k]);
        } else {
            assert(forall|k: int| 1 <= k < toks.len() ==> toks[k] == rest[k - 1]);
        }
    }
}

/// Folding non-empty text tokens never emits an empty child.
proof fn lemma_fold_children_nonempty(toks: Seq<TokenView>, open: bool, buf: Seq<char>)
    requires
        forall|k: int| 0 <= k < toks.len() && toks[k] is Text ==> toks[k]->Text_0.len() > 0,
    ensures
        forall|k: int|
            0 <= k < fold_children(toks, open, buf).len()
                ==> nonempty_child(#[trigger] fold_children(toks, open, buf)[k]),
    decreases toks.len(),
{
    let out = fold_children(toks, open, buf);
    if toks.len() == 0 {
        if open && buf.len() > 0 {
            assert forall|k: int| 0 <= k < out.len() implies nonempty_child(out[k]) by {
                assert(out[k] == span_view(buf));
                assert(nonempty_child(span_view(buf)));
            }
        }
    } else {
        let rest = toks.skip(1);
        assert(forall|k: int| 0 <= k < rest.len() && rest[k] is Text ==> rest[k]->Text_0.len() > 0);
        match toks[0] {
            TokenView::Text(t) => {
                if open {
                    lemma_fold_children_nonempty(rest, true, buf + t);
                    assert(out == fold_children(rest, true, buf + t));
                } else {
                    lemma_fold_children_nonempty(rest, false, Seq::empty());
                    let rec = fold_children(rest, false, Seq::empty());
                    assert(toks[0]->Text_0.len() > 0);
                    assert forall|k: int| 0 <= k < out.len() implies nonempty_child(out[k]) by {
                        if k == 0 {
                            assert(out[0] == ChildView::Text(t));
                            assert(nonempty_child(ChildView::Text(t)));
                        } else {
                            assert(out[k] == rec[k - 1]);
                            assert(nonempty_child(rec[k - 1]));
                        }
                    }
                }
            },
            TokenView::SpoilerOpen => {
                if open {
                    lemma_fold_children_nonempty(rest, true, buf + open_marker());
                    assert(out == fold_children(rest, true, buf + open_marker()));
                } else {
                    lemma_fold_children_nonempty(rest, true, Seq::empty());
                    assert(out == fold_children(rest, true, Seq::empty()));
                }
            },
            TokenView::SpoilerClose => {
                lemma_fold_children_nonempty(rest, false, Seq::empty());
                let rec = fold_children(rest, false, Seq::empty());
                if open {
                    if buf.len() > 0 {
                        assert forall|k: int| 0 <= k < out.len() implies nonempty_child(out[k]) by {
                            if k == 0 {
                                assert(out[0] == span_view(buf));
                                assert(nonempty_child(span_view(buf)));
                            } else {
                                assert(out[k] == rec[k - 1]);
                                assert(nonempty_child(rec[k - 1]));
                            }
                        }
                    } else {
                        assert(out =~= rec);
                    }
                } else {
                    assert forall|k: int| 0 <= k < out.len() implies nonempty_child(out[k]) by {
                        if k == 0 {
                            assert(out[0] == ChildView::Text(close_marker()));
                            assert(nonempty_child(ChildView::Text(close_marker())));
                        } else {
                            assert(out[k] == rec[k - 1]);
                            assert(nonempty_child(rec[k - 1]));
                        }
                    }
                }
            },
        }
    }
}

/// Parsing never emits an empty child: every text child of the paragraph
/// holds at least one character, and every element child is a spoiler span
/// holding exactly one non-empty text run. In particular, an empty spoiler
/// region, `[spoiler]` at once followed by `[/spoiler]`, emits no span at
/// all.
pub proof fn lemma_no_empty_children(s: Seq<char>, open: bool)
    ensures
        forall|k: int|
            0 <= k < line_paragraph(s, open).children.len()
                ==> nonempty_child(#[trigger] line_paragraph(s, open).children[k]),
{
    lemma_tokenize_text_nonempty(s);
    lemma_fold_children_nonempty(spec_tokenize(s), open, Seq::empty());
}

/// The per-document parser state: whether a spoiler span opened on an earlier
/// line is still open. One instance serves one document, its lines fed in
/// order; a fresh instance starts with the spoiler closed.
pub struct LineParser {
    open_spoiler: bool,
}

impl View for LineParser {
    type V = bool;

    closed spec fn view(&self) -> bool {
        self.open_spoiler
    }
}

impl Default for LineParser {
    /// A fresh parser has no open spoiler.
    fn default() -> (r: LineParser)
        ensures
            r@ == false,
    {
        LineParser { open_spoiler: false }
    }
}

impl LineParser {
    /// Observes the carried spoiler state without changing it.
    pub fn is_spoiler_open(&self) -> (r: bool)
        ensures
            r == self@,
    {
        self.open_spoiler
    }

    /// Parses one line into a paragraph element, updating the carried spoiler
    /// state. Total over any line, the empty one included.
    pub fn parse(&mut self, line: &str) -> (p: Tag)
        ensures
            p@ == line_paragraph(line@, old(self)@),
            final(self)@ == line_final_state(line@, old(self)@),
    {
        let toks = tokenize(line);
        let ghost tv = spec_tokenize(line@);
        let ghost open0 = self.open_spoiler;

        proof {
            reveal_strlit("p");
            reveal_strlit("span");
        }
        let mut p = Tag::new("p");
        if line_reset_flag(&toks) {
            p.attribute("class", RESET_FOREGROUND_CLASS);
            proof {
                assert(p@.attrs =~= seq![("class"@, "icolor"@)]);
            }
        }
        let ghost attrs0 = p@.attrs;
        proof {
            assert(attrs0 == line_paragraph(line@, open0).attrs);
            assert(p@.children =~= Seq::<ChildView>::empty());
        }

        let mut open = self.open_spoiler;
        let mut buf = String::new();
        let n = toks.len();
        let mut j: usize = 0;
        proof {
            assert(tv.skip(0) =~= tv);
            assert(Seq::<ChildView>::empty() + fold_children(tv, open0, Seq::empty())
                =~= fold_children(tv, open0, Seq::empty()));
        }
        while j < n
            invariant
                j <= n,
                n == toks@.len(),
                tv == tokens_views(toks@),
                p@.name == "p"@,
                p@.attrs == attrs0,
                !open ==> buf@.len() == 0,
                fold_children(tv, open0, Seq::empty()) == p@.children + fold_children(
                    tv.skip(j as int),
                    open,
                    buf@,
                ),
                fold_state(tv, open0) == fold_state(tv.skip(j as int), open),
            decreases n - j,
        {
            proof {
                assert(tv.skip(j as int).len() > 0);
                assert(tv.skip(j as int)[0] == tv[j as int]);
                assert(tv.skip(j as int).skip(1) =~= tv.skip(j + 1 as int));
            }
            let ghost pc = p@.children;
            match &toks[j] {
                Token::Text(t) => {
                    if open {
                        buf.append(t.as_str());
                    } else {
                        proof {
                            assert(buf@ =~= Seq::<char>::empty());
                        }
                        let tc = t.clone();
                        let ghost tstr = tc;
                        let c = Child::Text(tc);
                        proof {
                            lemma_text_child_view(tstr);
                            assert(c@ == ChildView::Text(t@));
                        }
                        p.child(c);
                        proof {
                            assert(pc.push(ChildView::Text(t@)) + fold_children(tv.skip(j + 1 as int), open, buf@)
                                =~= pc + (seq![ChildView::Text(t@)] + fold_children(tv.skip(j + 1 as int), open, buf@)));
                        }
                    }
                },
                Token::SpoilerOpen => {
                    if open {
                        buf.append("[spoiler]");
                        proof {
                            reveal_strlit("[spoiler]");
                            assert("[spoiler]"@ =~= open_marker());
                        }
                    } else {
                        open = true;
                        proof {
                            assert(buf@ =~= Seq::<char>::empty());
                        }
                    }
                },
                Token::SpoilerClose => {
                    if open {
                        let ghost bufv = buf@;
                        if !buf.as_str().is_empty() {
                            proof {
                                reveal_strlit("span");
                            }
                            let mut sp = Tag::new("span");
                            let content = buf;
                            buf = String::new();
                            let ghost cstr = content;
                            let tc = Child::Text(content);
                            proof {
                                lemma_text_child_view(cstr);
                                assert(tc@ == ChildView::Text(bufv));
                            }
                            sp.child(tc);
                            proof {
                                assert(sp@.children =~= seq![ChildView::Text(bufv)]);
                            }
                            let ghost spt = sp;
                            let sc = Child::Tag(sp);
                            proof {
                                lemma_tag_child_view(spt);
                                assert(spt@ == span_view(bufv)->Tag_0);
                                assert(sc@ == span_view(bufv));
                            }
                            p.child(sc);
                            proof {
                                assert(pc.push(span_view(bufv)) + fold_children(tv.skip(j + 1 as int), false, buf@)
                                    =~= pc + (seq![span_view(bufv)] + fold_children(tv.skip(j + 1 as int), false, buf@)));
                            }
                        }
                        open = false;
                        proof {
                            assert(buf@ =~= Seq::<char>::empty());
                        }
                    } else {
                        proof {
                            assert(buf@ =~= Seq::<char>::empty());
                        }
                        let lit = String::from_str("[/spoiler]");
                        proof {
                            reveal_strlit("[/spoiler]");
                            assert(lit@ =~= close_marker());
                        }
                        let ghost lstr = lit;
                        let c = Child::Text(lit);
                        proof {
                            lemma_text_child_view(lstr);
                            assert(c@ == ChildView::Text(close_marker()));
                        }
                        p.child(c);
                        proof {
                            assert(pc.push(ChildView::Text(close_marker())) + fold_children(tv.skip(j + 1 as int), open, buf@)
                                =~= pc + (seq![ChildView::Text(close_marker())] + fold_children(tv.skip(j + 1 as int), open, buf@)));
                        }
                    }
                },
            }
            j += 1;
        }
        proof {
            assert(tv.skip(n as int) =~= Seq::<TokenView>::empty());
        }
        if open {
            if !buf.as_str().is_empty() {
                let ghost pc = p@.children;
                let ghost bufv = buf@;
                proof {
                    reveal_strlit("span");
                }
                let mut sp = Tag::new("span");
                let ghost cstr = buf;
                let tc = Child::Text(buf);
                proof {
                    lemma_text_child_view(cstr);
                    assert(tc@ == ChildView::Text(bufv));
                }
                sp.child(tc);
                proof {
                    assert(sp@.children =~= seq![ChildView::Text(bufv)]);
                }
                let ghost spt = sp;
                let sc = Child::Tag(sp);
                proof {
                    lemma_tag_child_view(spt);
                    assert(spt@ == span_view(bufv)->Tag_0);
                    assert(sc@ == span_view(bufv));
                }
                p.child(sc);
                proof {
                    assert(pc.push(span_view(bufv)) =~= pc + seq![span_view(bufv)]);
                }
            }
        }
        self.open_spoiler = open;
        proof {
            assert(p@.children =~= fold_children(tv, open0, Seq::empty()));
            assert(p@ == line_paragraph(line@, open0));
        }
        p
    }
}

} // verus!
