//! The run configuration: what one conversion needs to know, as plain values.
//! The surrounding command-line layer parses the arguments into `Args` and
//! uses `hex_color_validator` to check the color options up front.

use crate::text::chars_of;
use crate::text::push_char;
use vstd::prelude::*;
use vstd::string::StringExecFns;

verus! {

/// When terminal colors are used in the tool's own output.
#[derive(Debug, Clone, Copy, PartialEq, Eq, Structural)]
pub enum Color {
    Auto,
    Always,
    Never,
}

impl Default for Color {
    /// Unless asked otherwise, color use follows the terminal.
    fn default() -> (r: Color)
        ensures
            r == Color::Auto,
    {
        Color::Auto
    }
}

/// Everything one conversion run is configured with.
#[derive(Debug)]
pub struct Args {
    /// Title of the greentext.
    pub title: String,
    /// Name of the author.
    pub author: String,
    /// Cover image to use, if any.
    pub cover: Option<String>,
    /// Greentext subjects.
    pub subjects: Vec<String>,
    /// RGB color of the green highlight in hexadecimal notation.
    pub green_color: String,
    /// RGB color of the spoiler highlight in hexadecimal notation.
    pub spoiler_color: String,
    /// Verbosity level of the tool's own output.
    pub verbose: usize,
    /// Suppress all output.
    pub quiet: bool,
    /// When to use colors.
    pub color: Color,
    /// Path for the generated file.
    pub output: String,
    /// Text files in greentext format to convert.
    pub files: Vec<String>,
}

/// An ASCII hexadecimal digit.
pub open spec fn is_hex_digit_char(c: char) -> bool {
    ||| ('0' as int) <= (c as int) <= ('9' as int)
    ||| ('a' as int) <= (c as int) <= ('f' as int)
    ||| ('A' as int) <= (c as int) <= ('F' as int)
}

/// The shape a hexadecimal color must have: a `#` followed by three or six
/// characters.
pub open spec fn hex_color_shape_ok(s: Seq<char>) -> bool {
    s.len() > 0 && s[0] == '#' && (s.len() == 4 || s.len() == 7)
}

/// A well-formed hexadecimal color: the right shape, hexadecimal digits
/// throughout.
pub open spec fn valid_hex_color(s: Seq<char>) -> bool {
    hex_color_shape_ok(s) && (forall|i: int| 1 <= i < s.len() ==> is_hex_digit_char(#[trigger] s[i]))
}

/// The complaint for a color of the wrong shape.
pub open spec fn hex_color_shape_message() -> Seq<char> {
    "Hexadecimal notation for RGB color has to be either `#rgb` or `#rrggbb`"@
}

/// The characters after the `#` that are not hexadecimal digits, in order.
pub open spec fn bad_digits(s: Seq<char>) -> Seq<char>
    decreases s.len(),
{
    if s.len() == 0 {
        Seq::empty()
    } else {
        bad_digits(s.drop_last()) + (if !is_hex_digit_char(s.last()) {
            seq![s.last()]
        } else {
            Seq::empty()
        })
    }
}

/// The offending characters, each in quotes, separated by commas.
pub open spec fn quoted_join(cs: Seq<char>) -> Seq<char>
    decreases cs.len(),
{
    if cs.len() == 0 {
        Seq::empty()
    } else if cs.len() == 1 {
        seq!['\'', cs[0], '\'']
    } else {
        quoted_join(cs.drop_last()) + seq![',', ' ', '\'', cs.last(), '\'']
    }
}

/// The complaint for a color holding characters that are not hexadecimal
/// digits.
pub open spec fn invalid_digit_message(bad: Seq<char>) -> Seq<char> {
    "Invalid hexadecimal digit"@ + (if bad.len() > 1 {
        "s"@
    } else {
        Seq::<char>::empty()
    }) + ": "@ + quoted_join(bad)
}

/// An ASCII hexadecimal digit.
fn is_hex_digit(c: char) -> (b: bool)
    ensures
        b == is_hex_digit_char(c),
{
    let u = c as u32;
    (48 <= u && u <= 57) || (97 <= u && u <= 102) || (65 <= u && u <= 70)
}

/// All of a sequence is hexadecimal digits exactly when none of it is bad.
proof fn lemma_bad_digits_empty(s: Seq<char>)
    ensures
        (bad_digits(s).len() == 0) <==> (forall|i: int|
            0 <= i < s.len() ==> is_hex_digit_char(#[trigger] s[i])),
    decreases s.len(),
{
    if s.len() > 0 {
        lemma_bad_digits_empty(s.drop_last());
        assert(forall|i: int| 0 <= i < s.len() - 1 ==> s.drop_last()[i] == s[i]);
    }
}

/// Checks a color option in hexadecimal notation: `Ok` exactly for a `#`
/// followed by three or six hexadecimal digits; otherwise the message names
/// what is wrong, the shape or the offending characters.
pub fn hex_color_validator(color: &str) -> (r: Result<(), String>)
    ensures
        r is Ok <==> valid_hex_color(color@),
        !hex_color_shape_ok(color@) ==> (r matches Err(m) && m@ == hex_color_shape_message()),
        hex_color_shape_ok(color@) && !valid_hex_color(color@) ==> (r matches Err(m) && m@
            == invalid_digit_message(bad_digits(color@.skip(1)))),
{
    let cv = chars_of(color);
    let n = cv.len();
    if !(n > 0 && cv[0] == '#' && (n == 4 || n == 7)) {
        return Result::Err(
            String::from_str("Hexadecimal notation for RGB color has to be either `#rgb` or `#rrggbb`"),
        );
    }

    let mut bad: Vec<char> = Vec::new();
    let mut i: usize = 1;
    proof {
        assert(cv@.subrange(1, 1) =~= Seq::<char>::empty());
        assert(bad@ =~= bad_digits(cv@.subrange(1, 1)));
    }
    while i < n
        invariant
            1 <= i <= n,
            n == cv@.len(),
            cv@ == color@,
            bad@ == bad_digits(cv@.subrange(1, i as int)),
        decreases n - i,
    {
        let c = cv[i];
        if !is_hex_digit(c) {
            bad.push(c);
        }
        proof {
            let pre = cv@.subrange(1, i + 1 as int);
            assert(pre.drop_last() =~= cv@.subrange(1, i as int));
            assert(pre.last() == cv@[i as int]);
            assert(bad@ =~= bad_digits(pre));
        }
        i += 1;
    }
    proof {
        assert(cv@.subrange(1, n as int) =~= cv@.skip(1));
        lemma_bad_digits_empty(cv@.skip(1));
        assert(forall|k: int| 0 <= k < cv@.skip(1).len() ==> cv@.skip(1)[k] == color@[k + 1]);
    }

    if bad.len() == 0 {
        proof {
            assert forall|idx: int| 1 <= idx < color@.len() implies is_hex_digit_char(
                color@[idx],
            ) by {
                assert(cv@.skip(1)[idx - 1] == color@[idx]);
                assert(is_hex_digit_char(cv@.skip(1)[idx - 1]));
            }
        }
        return Result::Ok(());
    }
    proof {
        if valid_hex_color(color@) {
            assert forall|k: int| 0 <= k < cv@.skip(1).len() implies is_hex_digit_char(
                cv@.skip(1)[k],
            ) by {
                assert(cv@.skip(1)[k] == color@[k + 1]);
                assert(is_hex_digit_char(color@[k + 1]));
            }
            assert(bad_digits(cv@.skip(1)).len() == 0);
            assert(false);
        }
    }

    let mut m = String::from_str("Invalid hexadecimal digit");
    if bad.len() > 1 {
        m.append("s");
    } else {
        proof {
            assert(m@ =~= "Invalid hexadecimal digit"@ + Seq::<char>::empty());
        }
    }
    m.append(": ");
    let ghost header = m@;
    let nb = bad.len();
    let mut k: usize = 0;
    proof {
        assert(bad@.subrange(0, 0) =~= Seq::<char>::empty());
        assert(m@ =~= header + quoted_join(bad@.subrange(0, 0)));
    }
    while k < nb
        invariant
            k <= nb,
            nb == bad@.len(),
            m@ == header + quoted_join(bad@.subrange(0, k as int)),
        decreases nb - k,
    {
        if k > 0 {
            m.append(", ");
            proof {
                reveal_strlit(", ");
            }
        }
        push_char(&mut m, '\'');
        push_char(&mut m, bad[k]);
        push_char(&mut m, '\'');
        proof {
            let pre = bad@.subrange(0, k + 1 as int);
            assert(pre.drop_last() =~= bad@.subrange(0, k as int));
            assert(pre.last() == bad@[k as int]);
            if k == 0 {
                assert(pre.len() == 1);
                assert(quoted_join(pre) == seq!['\'', pre[0], '\'']);
                assert(m@ =~= header + quoted_join(pre));
            } else {
                assert(quoted_join(pre) == quoted_join(pre.drop_last()) + seq![',', ' ', '\'', pre.last(), '\'']);
                assert(", "@ =~= seq![',', ' ']);
                assert(m@ =~= header + quoted_join(pre));
            }
        }
        k += 1;
    }
    proof {
        assert(bad@.subrange(0, nb as int) =~= bad@);
    }
    Result::Err(m)
}

} // verus!
