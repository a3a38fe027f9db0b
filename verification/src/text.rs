//! Small text helpers: trimming white space and clipping long labels.

use vstd::prelude::*;

verus! {

/// `c` has the Unicode `White_Space` property.
pub open spec fn is_white_space(c: char) -> bool {
    let u = c as u32;
    ||| 0x09 <= u <= 0x0D
    ||| u == 0x20
    ||| u == 0x85
    ||| u == 0xA0
    ||| u == 0x1680
    ||| 0x2000 <= u <= 0x200A
    ||| u == 0x2028
    ||| u == 0x2029
    ||| u == 0x202F
    ||| u == 0x205F
    ||| u == 0x3000
}

/// `s` without its leading white space.
pub open spec fn trim_front(s: Seq<char>) -> Seq<char>
    decreases s.len(),
{
    if s.len() > 0 && is_white_space(s[0]) {
        trim_front(s.drop_first())
    } else {
        s
    }
}

/// `s` without its trailing white space.
pub open spec fn trim_back(s: Seq<char>) -> Seq<char>
    decreases s.len(),
{
    if s.len() > 0 && is_white_space(s.last()) {
        trim_back(s.drop_last())
    } else {
        s
    }
}

/// `s` without leading and trailing white space.
pub open spec fn trimmed(s: Seq<char>) -> Seq<char> {
    trim_back(trim_front(s))
}

/// Wraps `str::trim`, which its documentation describes as removing the
/// leading and trailing characters with the Unicode `White_Space` property.
#[verifier::external_body]
pub(crate) fn str_trim(s: &str) -> (r: &str)
    ensures
        r@ == trimmed(s@),
{
    s.trim()
}

/// `text` cut to at most `max_chars` characters: kept whole when it fits;
/// otherwise its first `max_chars` characters when that is 3 or fewer, or
/// its first `max_chars - 3` characters followed by "...".
pub open spec fn clipped(text: Seq<char>, max_chars: int) -> Seq<char> {
    if text.len() <= max_chars {
        text
    } else if max_chars <= 3 {
        text.take(max_chars)
    } else {
        text.take(max_chars - 3) + "..."@
    }
}

/// Cuts a label to at most `max_chars` characters, and never lengthens it;
/// see `clipped`.
pub fn clip_text(text: &str, max_chars: usize) -> (r: String)
    ensures
        r@ == clipped(text@, max_chars as int),
        r@.len() <= max_chars,
        r@.len() <= text@.len(),
{
    proof {
        reveal_strlit("...");
    }
    let count = text.unicode_len();
    if count <= max_chars {
        return String::from_str(text);
    }
    if max_chars <= 3 {
        return String::from_str(text.substring_char(0, max_chars));
    }
    String::from_str(text.substring_char(0, max_chars - 3)).concat("...")
}

} // verus!
