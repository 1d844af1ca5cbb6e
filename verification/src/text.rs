//! Character-level string utilities shared by the tree serializer and the
//! line parser: escaping for markup text and attribute values, and decimal
//! rendering of sizes.

use vstd::prelude::*;
use vstd::string::StrSliceExecFns;
use vstd::string::StringExecFns;

verus! {

/// Relies on String::push: appends the given character to the end of the
/// string, leaving everything before it unchanged.
#[verifier::external_body]
pub(crate) fn push_char(s: &mut String, c: char)
    ensures
        final(s)@ == old(s)@.push(c),
{
    s.push(c);
}

/// Collects the characters of a string slice into a vector.
pub(crate) fn chars_of(s: &str) -> (r: Vec<char>)
    ensures
        r@ == s@,
{
    let n = s.unicode_len();
    let mut r: Vec<char> = Vec::new();
    let mut i: usize = 0;
    while i < n
        invariant
            i <= n,
            n == s@.len(),
            r@ == s@.subrange(0, i as int),
        decreases n - i,
    {
        r.push(s.get_char(i));
        proof {
            assert(r@ =~= s@.subrange(0, i + 1 as int));
        }
        i += 1;
    }
    proof {
        assert(r@ =~= s@);
    }
    r
}

/// How one character of text content is rendered: the three base entities
/// are substituted, every other character stands for itself.
pub open spec fn text_escape_char(c: char) -> Seq<char> {
    if c == '&' {
        seq!['&', 'a', 'm', 'p', ';']
    } else if c == '<' {
        seq!['&', 'l', 't', ';']
    } else if c == '>' {
        seq!['&', 'g', 't', ';']
    } else {
        seq![c]
    }
}

/// How one character of a double-quoted attribute value is rendered: as text
/// content, but with the quote character escaped as well.
pub open spec fn attr_escape_char(c: char) -> Seq<char> {
    if c == '"' {
        seq!['&', 'q', 'u', 'o', 't', ';']
    } else {
        text_escape_char(c)
    }
}

/// A text run, escaped character by character.
pub open spec fn escaped_text(s: Seq<char>) -> Seq<char>
    decreases s.len(),
{
    if s.len() == 0 {
        Seq::empty()
    } else {
        escaped_text(s.drop_last()) + text_escape_char(s.last())
    }
}

/// An attribute value, escaped character by character.
pub open spec fn escaped_attr(s: Seq<char>) -> Seq<char>
    decreases s.len(),
{
    if s.len() == 0 {
        Seq::empty()
    } else {
        escaped_attr(s.drop_last()) + attr_escape_char(s.last())
    }
}

/// Greedy entity decoding, as a conformant markup parser reads a quoted
/// attribute value or a text run: each of the four entities the escapers emit
/// decodes to its character, and every other character stands for itself.
pub open spec fn decoded(s: Seq<char>) -> Seq<char>
    decreases s.len(),
{
    if s.len() == 0 {
        Seq::empty()
    } else if s.len() >= 5 && s.subrange(0, 5) == seq!['&', 'a', 'm', 'p', ';'] {
        seq!['&'] + decoded(s.skip(5))
    } else if s.len() >= 4 && s.subrange(0, 4) == seq!['&', 'l', 't', ';'] {
        seq!['<'] + decoded(s.skip(4))
    } else if s.len() >= 4 && s.subrange(0, 4) == seq!['&', 'g', 't', ';'] {
        seq!['>'] + decoded(s.skip(4))
    } else if s.len() >= 6 && s.subrange(0, 6) == seq!['&', 'q', 'u', 'o', 't', ';'] {
        seq!['"'] + decoded(s.skip(6))
    } else {
        seq![s[0]] + decoded(s.skip(1))
    }
}

/// Unfolds an escaped attribute value at its first character instead of its
/// last one.
proof fn lemma_escaped_attr_cons(s: Seq<char>)
    requires
        s.len() > 0,
    ensures
        escaped_attr(s) == attr_escape_char(s[0]) + escaped_attr(s.drop_first()),
    decreases s.len(),
{
    if s.len() == 1 {
        assert(s.drop_last() =~= Seq::<char>::empty());
        assert(s.drop_first() =~= Seq::<char>::empty());
        assert(escaped_attr(s) =~= attr_escape_char(s[0]) + escaped_attr(s.drop_first()));
    } else {
        let dl = s.drop_last();
        lemma_escaped_attr_cons(dl);
        assert(s.drop_first().drop_last() =~= dl.drop_first());
        assert(s.drop_first().last() == s.last());
        assert(escaped_attr(s) =~= attr_escape_char(s[0]) + escaped_attr(s.drop_first()));
    }
}

/// Unfolds an escaped text run at its first character instead of its last one.
proof fn lemma_escaped_text_cons(s: Seq<char>)
    requires
        s.len() > 0,
    ensures
        escaped_text(s) == text_escape_char(s[0]) + escaped_text(s.drop_first()),
    decreases s.len(),
{
    if s.len() == 1 {
        assert(s.drop_last() =~= Seq::<char>::empty());
        assert(s.drop_first() =~= Seq::<char>::empty());
        assert(escaped_text(s) =~= text_escape_char(s[0]) + escaped_text(s.drop_first()));
    } else {
        let dl = s.drop_last();
        lemma_escaped_text_cons(dl);
        assert(s.drop_first().drop_last() =~= dl.drop_first());
        assert(s.drop_first().last() == s.last());
        assert(escaped_text(s) =~= text_escape_char(s[0]) + escaped_text(s.drop_first()));
    }
}

/// Attribute escaping loses nothing: decoding an escaped attribute value gives
/// back exactly the original value, whatever characters it held. A conformant
/// markup parser that reads the serialized attribute therefore reproduces the
/// value the tree stored.
pub proof fn lemma_attr_escape_round_trip(s: Seq<char>)
    ensures
        decoded(escaped_attr(s)) == s,
    decreases s.len(),
{
    if s.len() > 0 {
        lemma_escaped_attr_cons(s);
        lemma_attr_escape_round_trip(s.drop_first());
        let c = s[0];
        let e = escaped_attr(s);
        let rest = escaped_attr(s.drop_first());
        if c == '&' {
            assert(e.subrange(0, 5) =~= seq!['&', 'a', 'm', 'p', ';']);
            assert(e.skip(5) =~= rest);
            assert(decoded(e) =~= s);
        } else if c == '<' {
            assert(e.subrange(0, 4) =~= seq!['&', 'l', 't', ';']);
            if e.len() >= 5 {
                assert(e.subrange(0, 5)[1] == 'l');
            }
            assert(e.skip(4) =~= rest);
            assert(decoded(e) =~= s);
        } else if c == '>' {
            assert(e.subrange(0, 4) =~= seq!['&', 'g', 't', ';']);
            if e.len() >= 5 {
                assert(e.subrange(0, 5)[1] == 'g');
            }
            assert(e.skip(4) =~= rest);
            assert(decoded(e) =~= s);
        } else if c == '"' {
            assert(e.subrange(0, 6) =~= seq!['&', 'q', 'u', 'o', 't', ';']);
            if e.len() >= 5 {
                assert(e.subrange(0, 5)[1] == 'q');
            }
            if e.len() >= 4 {
                assert(e.subrange(0, 4)[1] == 'q');
            }
            assert(e.skip(6) =~= rest);
            assert(decoded(e) =~= s);
        } else {
            assert(e[0] == c);
            if e.len() >= 5 {
                assert(e.subrange(0, 5)[0] == e[0]);
            }
            if e.len() >= 4 {
                assert(e.subrange(0, 4)[0] == e[0]);
            }
            if e.len() >= 6 {
                assert(e.subrange(0, 6)[0] == e[0]);
            }
            assert(e.skip(1) =~= rest);
            assert(decoded(e) =~= s);
        }
    }
}

/// Text escaping loses nothing either: decoding an escaped text run gives back
/// the original text. Escaping therefore happens exactly once per
/// serialization, from the raw stored text, and is reversible.
pub proof fn lemma_text_escape_round_trip(s: Seq<char>)
    ensures
        decoded(escaped_text(s)) == s,
    decreases s.len(),
{
    if s.len() > 0 {
        lemma_escaped_text_cons(s);
        lemma_text_escape_round_trip(s.drop_first());
        let c = s[0];
        let e = escaped_text(s);
        let rest = escaped_text(s.drop_first());
        if c == '&' {
            assert(e.subrange(0, 5) =~= seq!['&', 'a', 'm', 'p', ';']);
            assert(e.skip(5) =~= rest);
            assert(decoded(e) =~= s);
        } else if c == '<' {
            assert(e.subrange(0, 4) =~= seq!['&', 'l', 't', ';']);
            if e.len() >= 5 {
                assert(e.subrange(0, 5)[1] == 'l');
            }
            assert(e.skip(4) =~= rest);
            assert(decoded(e) =~= s);
        } else if c == '>' {
            assert(e.subrange(0, 4) =~= seq!['&', 'g', 't', ';']);
            if e.len() >= 5 {
                assert(e.subrange(0, 5)[1] == 'g');
            }
            assert(e.skip(4) =~= rest);
            assert(decoded(e) =~= s);
        } else {
            assert(e[0] == c);
            if e.len() >= 5 {
                assert(e.subrange(0, 5)[0] == e[0]);
            }
            if e.len() >= 4 {
                assert(e.subrange(0, 4)[0] == e[0]);
            }
            if e.len() >= 6 {
                assert(e.subrange(0, 6)[0] == e[0]);
            }
            assert(e.skip(1) =~= rest);
            assert(decoded(e) =~= s);
        }
    }
}

/// Escapes `&`, `<` and `>` in text content.
pub fn escape_text(s: &str) -> (r: String)
    ensures
        r@ == escaped_text(s@),
{
    let n = s.unicode_len();
    let mut r = String::new();
    let mut i: usize = 0;
    while i < n
        invariant
            i <= n,
            n == s@.len(),
            r@ == escaped_text(s@.subrange(0, i as int)),
        decreases n - i,
    {
        let c = s.get_char(i);
        if c == '&' {
            r.append("&amp;");
            proof {
                reveal_strlit("&amp;");
                assert("&amp;"@ =~= text_escape_char(c));
            }
        } else if c == '<' {
            r.append("&lt;");
            proof {
                reveal_strlit("&lt;");
                assert("&lt;"@ =~= text_escape_char(c));
            }
        } else if c == '>' {
            r.append("&gt;");
            proof {
                reveal_strlit("&gt;");
                assert("&gt;"@ =~= text_escape_char(c));
            }
        } else {
            push_char(&mut r, c);
            proof {
                assert(r@ =~= escaped_text(s@.subrange(0, i as int)) + text_escape_char(c));
            }
        }
        proof {
            let pre = s@.subrange(0, i + 1 as int);
            assert(pre.drop_last() =~= s@.subrange(0, i as int));
            assert(pre.last() == s@[i as int]);
        }
        i += 1;
    }
    proof {
        assert(s@.subrange(0, n as int) =~= s@);
    }
    r
}

/// Escapes `&`, `<`, `>` and `"` in an attribute value.
pub fn escape_attr(s: &str) -> (r: String)
    ensures
        r@ == escaped_attr(s@),
{
    let n = s.unicode_len();
    let mut r = String::new();
    let mut i: usize = 0;
    while i < n
        invariant
            i <= n,
            n == s@.len(),
            r@ == escaped_attr(s@.subrange(0, i as int)),
        decreases n - i,
    {
        let c = s.get_char(i);
        if c == '&' {
            r.append("&amp;");
            proof {
                reveal_strlit("&amp;");
                assert("&amp;"@ =~= attr_escape_char(c));
            }
        } else if c == '<' {
            r.append("&lt;");
            proof {
                reveal_strlit("&lt;");
                assert("&lt;"@ =~= attr_escape_char(c));
            }
        } else if c == '>' {
            r.append("&gt;");
            proof {
                reveal_strlit("&gt;");
                assert("&gt;"@ =~= attr_escape_char(c));
            }
        } else if c == '"' {
            r.append("&quot;");
            proof {
                reveal_strlit("&quot;");
                assert("&quot;"@ =~= attr_escape_char(c));
            }
        } else {
            push_char(&mut r, c);
            proof {
                assert(r@ =~= escaped_attr(s@.subrange(0, i as int)) + attr_escape_char(c));
            }
        }
        proof {
            let pre = s@.subrange(0, i + 1 as int);
            assert(pre.drop_last() =~= s@.subrange(0, i as int));
            assert(pre.last() == s@[i as int]);
        }
        i += 1;
    }
    proof {
        assert(s@.subrange(0, n as int) =~= s@);
    }
    r
}

/// Builds a string from the characters in `[from, to)`.
pub(crate) fn string_from_range(chars: &Vec<char>, from: usize, to: usize) -> (r: String)
    requires
        from <= to <= chars@.len(),
    ensures
        r@ == chars@.subrange(from as int, to as int),
{
    let mut r = String::new();
    let mut k = from;
    while k < to
        invariant
            from <= k <= to <= chars@.len(),
            r@ == chars@.subrange(from as int, k as int),
        decreases to - k,
    {
        push_char(&mut r, chars[k]);
        proof {
            assert(r@ =~= chars@.subrange(from as int, k + 1 as int));
        }
        k += 1;
    }
    r
}

/// The lines of a string, as the standard line iterator yields them: split at
/// `\n` or `\r\n`, with the final line ending optional and a lone carriage
/// return left in place.
pub open spec fn lines_of(s: Seq<char>) -> Seq<Seq<char>>
    decreases s.len(),
{
    if s.len() == 0 {
        Seq::empty()
    } else if s[0] == '\n' {
        seq![Seq::<char>::empty()] + lines_of(s.skip(1))
    } else if s[0] == '\r' && s.len() >= 2 && s[1] == '\n' {
        seq![Seq::<char>::empty()] + lines_of(s.skip(2))
    } else {
        prepend_line(seq![s[0]], lines_of(s.skip(1)))
    }
}

/// Joins a run of characters onto the front of the first line, or opens a
/// first line of its own when there is none.
pub open spec fn prepend_line(t: Seq<char>, ls: Seq<Seq<char>>) -> Seq<Seq<char>> {
    if t.len() == 0 {
        ls
    } else if ls.len() == 0 {
        seq![t]
    } else {
        seq![t + ls[0]] + ls.skip(1)
    }
}

/// Joining two runs one after the other is joining their concatenation.
proof fn lemma_prepend_line_concat(a: Seq<char>, b: Seq<char>, ls: Seq<Seq<char>>)
    ensures
        prepend_line(a, prepend_line(b, ls)) == prepend_line(a + b, ls),
{
    if a.len() == 0 {
        assert(a + b =~= b);
    } else if b.len() == 0 {
        assert(a + b =~= a);
    } else if ls.len() == 0 {
        assert(prepend_line(b, ls) == seq![b]);
        assert(prepend_line(a, seq![b]) == seq![a + b] + seq![b].skip(1));
        assert(seq![b].skip(1) =~= Seq::<Seq<char>>::empty());
        assert(prepend_line(a, prepend_line(b, ls)) =~= prepend_line(a + b, ls));
    } else {
        assert(prepend_line(b, ls) == seq![b + ls[0]] + ls.skip(1));
        assert(prepend_line(b, ls)[0] == b + ls[0]);
        assert(prepend_line(b, ls).skip(1) =~= ls.skip(1));
        assert(a + (b + ls[0]) =~= (a + b) + ls[0]);
        assert(prepend_line(a, prepend_line(b, ls)) =~= prepend_line(a + b, ls));
    }
}

/// The views of a vector of lines.
pub open spec fn lines_views(ls: Seq<String>) -> Seq<Seq<char>> {
    Seq::new(ls.len(), |i: int| ls[i]@)
}

/// The first `k` lines joined for display: the first as it is, every later
/// one on a fresh line behind two spaces.
pub open spec fn indent_prefix(ls: Seq<Seq<char>>, k: int) -> Seq<char>
    decreases k,
{
    if k <= 0 || k > ls.len() {
        Seq::empty()
    } else if k == 1 {
        ls[0]
    } else {
        indent_prefix(ls, k - 1) + seq!['\n', ' ', ' '] + ls[k - 1]
    }
}

/// A multi-line message reindented for display: continuation lines sit behind
/// two spaces so they read as part of the first.
pub open spec fn indented_lines(s: Seq<char>) -> Seq<char> {
    indent_prefix(lines_of(s), lines_of(s).len() as int)
}

/// Reindents a multi-line message: the first line stays as it is and every
/// following line is set off behind two spaces.
pub fn indent_args(args: &str) -> (r: String)
    ensures
        r@ == indented_lines(args@),
{
    let chars = chars_of(args);
    let ghost s = args@;
    let n = chars.len();
    let mut lines: Vec<String> = Vec::new();
    let mut start: usize = 0;
    let mut i: usize = 0;
    proof {
        assert(s.skip(0) =~= s);
        assert(s.subrange(0, 0) =~= Seq::<char>::empty());
        assert(lines_views(lines@) =~= Seq::<Seq<char>>::empty());
        assert(lines_views(lines@) + prepend_line(s.subrange(0, 0), lines_of(s.skip(0)))
            =~= lines_of(s));
    }
    while i < n
        invariant
            start <= i <= n,
            n == s.len(),
            chars@ == s,
            lines_of(s) == lines_views(lines@) + prepend_line(
                s.subrange(start as int, i as int),
                lines_of(s.skip(i as int)),
            ),
        decreases n - i,
    {
        let ghost pending = s.subrange(start as int, i as int);
        let ghost rest = s.skip(i as int);
        proof {
            assert(rest.len() > 0);
            assert(rest[0] == s[i as int]);
        }
        let c = chars[i];
        let is_crlf = c == '\r' && i + 1 < n && chars[i + 1] == '\n';
        if c == '\n' || is_crlf {
            let seg = string_from_range(&chars, start, i);
            let ghost old_lines = lines@;
            lines.push(seg);
            let step: usize = if is_crlf {
                2
            } else {
                1
            };
            proof {
                if is_crlf {
                    assert(rest.len() >= 2 && rest[1] == s[i + 1]);
                    assert(lines_of(rest) == seq![Seq::<char>::empty()] + lines_of(rest.skip(2)));
                    assert(rest.skip(2) =~= s.skip(i + 2 as int));
                } else {
                    assert(lines_of(rest) == seq![Seq::<char>::empty()] + lines_of(rest.skip(1)));
                    assert(rest.skip(1) =~= s.skip(i + 1 as int));
                }
                let tail = lines_of(s.skip(i + step as int));
                assert(lines_of(rest) == seq![Seq::<char>::empty()] + tail);
                assert((seq![Seq::<char>::empty()] + tail)[0] =~= Seq::<char>::empty());
                if pending.len() == 0 {
                    assert(pending =~= Seq::<char>::empty());
                } else {
                    assert(pending + (seq![Seq::<char>::empty()] + tail)[0] =~= pending);
                    assert((seq![Seq::<char>::empty()] + tail).skip(1) =~= tail);
                }
                assert(prepend_line(pending, lines_of(rest)) =~= seq![pending] + tail);
                assert(lines_views(lines@) =~= lines_views(old_lines).push(pending));
                assert(s.subrange(i + step as int, i + step as int) =~= Seq::<char>::empty());
                assert(lines_of(s) =~= lines_views(lines@) + prepend_line(
                    s.subrange(i + step as int, i + step as int),
                    lines_of(s.skip(i + step as int)),
                ));
            }
            i = i + step;
            start = i;
        } else {
            proof {
                assert(!(rest[0] == '\r' && rest.len() >= 2 && rest[1] == '\n'));
                assert(lines_of(rest) == prepend_line(seq![s[i as int]], lines_of(rest.skip(1))));
                assert(rest.skip(1) =~= s.skip(i + 1 as int));
                lemma_prepend_line_concat(pending, seq![s[i as int]], lines_of(s.skip(i + 1 as int)));
                assert(pending + seq![s[i as int]] =~= s.subrange(start as int, i + 1 as int));
            }
            i = i + 1;
        }
    }
    if start < n {
        let seg = string_from_range(&chars, start, n);
        lines.push(seg);
    }
    proof {
        assert(s.skip(n as int) =~= Seq::<char>::empty());
        assert(lines_of(s.skip(n as int)) == Seq::<Seq<char>>::empty());
        if start < n {
            assert(prepend_line(s.subrange(start as int, n as int), Seq::<Seq<char>>::empty())
                =~= seq![s.subrange(start as int, n as int)]);
        } else {
            assert(s.subrange(start as int, n as int).len() == 0);
        }
        assert(lines_views(lines@) =~= lines_of(s));
    }

    let ghost lv = lines_views(lines@);
    let m = lines.len();
    let mut r = String::new();
    if m == 0 {
        proof {
            assert(indent_prefix(lv, 0) == Seq::<char>::empty());
            assert(r@ =~= indented_lines(s));
        }
        return r;
    }
    r.append(lines[0].as_str());
    let mut k: usize = 1;
    proof {
        assert(indent_prefix(lv, 1) == lv[0]);
        assert(r@ =~= indent_prefix(lv, 1));
    }
    while k < m
        invariant
            1 <= k <= m,
            m == lines@.len(),
            lv == lines_views(lines@),
            r@ == indent_prefix(lv, k as int),
        decreases m - k,
    {
        r.append("\n  ");
        r.append(lines[k].as_str());
        proof {
            reveal_strlit("\n  ");
            assert("\n  "@ =~= seq!['\n', ' ', ' ']);
            assert(r@ =~= indent_prefix(lv, k + 1 as int));
        }
        k += 1;
    }
    r
}

/// The character for one decimal digit.
pub open spec fn dec_digit(d: int) -> char {
    if d == 0 {
        '0'
    } else if d == 1 {
        '1'
    } else if d == 2 {
        '2'
    } else if d == 3 {
        '3'
    } else if d == 4 {
        '4'
    } else if d == 5 {
        '5'
    } else if d == 6 {
        '6'
    } else if d == 7 {
        '7'
    } else if d == 8 {
        '8'
    } else {
        '9'
    }
}

/// The usual decimal rendering of a number: most significant digit first, no
/// leading zeroes, and `0` for zero itself.
pub open spec fn dec_str(n: nat) -> Seq<char>
    decreases n,
{
    if n < 10 {
        seq![dec_digit(n as int)]
    } else {
        dec_str(n / 10).push(dec_digit((n % 10) as int))
    }
}

/// A character sequence reversed.
spec fn rev_chars(s: Seq<char>) -> Seq<char>
    decreases s.len(),
{
    if s.len() == 0 {
        Seq::empty()
    } else {
        rev_chars(s.drop_first()) + seq![s[0]]
    }
}

/// Reversal moves an appended element to the front.
proof fn lemma_rev_chars_push(s: Seq<char>, x: char)
    ensures
        rev_chars(s.push(x)) == seq![x] + rev_chars(s),
    decreases s.len(),
{
    if s.len() == 0 {
        assert(s.push(x).drop_first() =~= Seq::<char>::empty());
        assert(rev_chars(Seq::<char>::empty()) == Seq::<char>::empty());
        assert(s.push(x)[0] == x);
        assert(rev_chars(s.push(x)) == rev_chars(s.push(x).drop_first()) + seq![x]);
        assert(rev_chars(s.push(x)) =~= seq![x] + rev_chars(s));
    } else {
        assert(s.push(x).drop_first() =~= s.drop_first().push(x));
        lemma_rev_chars_push(s.drop_first(), x);
        assert(s.push(x)[0] == s[0]);
        assert(rev_chars(s.push(x)) == (seq![x] + rev_chars(s.drop_first())) + seq![s[0]]);
        assert((seq![x] + rev_chars(s.drop_first())) + seq![s[0]] =~= seq![x] + (rev_chars(
            s.drop_first(),
        ) + seq![s[0]]));
        assert(rev_chars(s) == rev_chars(s.drop_first()) + seq![s[0]]);
    }
}

/// The character for one decimal digit.
fn digit_char(d: usize) -> (c: char)
    requires
        d < 10,
    ensures
        c == dec_digit(d as int),
{
    if d == 0 {
        '0'
    } else if d == 1 {
        '1'
    } else if d == 2 {
        '2'
    } else if d == 3 {
        '3'
    } else if d == 4 {
        '4'
    } else if d == 5 {
        '5'
    } else if d == 6 {
        '6'
    } else if d == 7 {
        '7'
    } else if d == 8 {
        '8'
    } else {
        '9'
    }
}

/// Renders a number in decimal.
pub fn usize_to_string(n: usize) -> (r: String)
    ensures
        r@ == dec_str(n as nat),
{
    let mut digits: Vec<char> = Vec::new();
    let mut m: usize = n;
    digits.push(digit_char(m % 10));
    proof {
        assert(digits@ =~= seq![dec_digit((n % 10) as int)]);
        assert(rev_chars(digits@.drop_first()) =~= Seq::<char>::empty());
        assert(rev_chars(digits@) =~= seq![dec_digit((n % 10) as int)]);
    }
    m = m / 10;
    proof {
        if m == 0 {
            assert(n < 10);
            assert(dec_str(n as nat) =~= rev_chars(digits@));
        } else {
            assert(dec_str(n as nat) == dec_str((n / 10) as nat).push(dec_digit((n % 10) as int)));
            assert(dec_str(n as nat) =~= dec_str(m as nat) + rev_chars(digits@));
        }
    }
    while m > 0
        invariant
            m > 0 ==> dec_str(n as nat) == dec_str(m as nat) + rev_chars(digits@),
            m == 0 ==> dec_str(n as nat) == rev_chars(digits@),
            digits@.len() >= 1,
        decreases m,
    {
        let d = m % 10;
        let ghost old_digits = digits@;
        digits.push(digit_char(d));
        proof {
            lemma_rev_chars_push(old_digits, dec_digit(d as int));
        }
        m = m / 10;
        proof {
            if m == 0 {
                assert(dec_str((d + m * 10) as nat) == seq![dec_digit(d as int)]);
                assert(dec_str(n as nat) =~= rev_chars(digits@));
            } else {
                assert(dec_str((d + m * 10) as nat) == dec_str(m as nat).push(dec_digit(d as int)));
                assert(dec_str(n as nat) =~= dec_str(m as nat) + rev_chars(digits@));
            }
        }
    }
    let mut r = String::new();
    let mut k = digits.len();
    proof {
        assert(digits@.skip(digits@.len() as int) =~= Seq::<char>::empty());
        assert(r@ =~= rev_chars(digits@.skip(digits@.len() as int)));
    }
    while k > 0
        invariant
            k <= digits@.len(),
            r@ == rev_chars(digits@.skip(k as int)),
        decreases k,
    {
        k = k - 1;
        push_char(&mut r, digits[k]);
        proof {
            assert(digits@.skip(k as int).drop_first() =~= digits@.skip(k + 1 as int));
            assert(digits@.skip(k as int)[0] == digits@[k as int]);
            assert(r@ =~= rev_chars(digits@.skip(k as int)));
        }
    }
    proof {
        assert(digits@.skip(0) =~= digits@);
    }
    r
}

} // verus!
