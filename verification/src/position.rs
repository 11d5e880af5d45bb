//! Places in a text: where a line starts, the byte under an editor position,
//! and small text clean-ups of names and paths.
use vstd::prelude::*;
use crate::text::{chars_of, char_width, lemma_encode_push, string_from};
use crate::toml::utf8_len;

verus! {

/// The number of line breaks in `s`.
pub open spec fn newline_count(s: Seq<char>) -> nat
    decreases s.len(),
{
    if s.len() == 0 {
        0
    } else {
        newline_count(s.drop_last()) + if s.last() == '\n' {
            1nat
        } else {
            0nat
        }
    }
}

/// The index of the `n`-th line break of `s` (counting from 1).
pub open spec fn nth_newline(s: Seq<char>, n: nat) -> Option<int>
    decreases s.len(),
{
    if s.len() == 0 {
        None
    } else if s.last() == '\n' && newline_count(s) == n {
        Some(s.len() - 1)
    } else {
        nth_newline(s.drop_last(), n)
    }
}

/// Where line `line` (counting from 0) starts, in bytes: 0 for the first
/// line; one byte past its line break for a later one; when the text has one
/// line break fewer, one byte past the start of its last character (1 for an
/// empty text); nothing for a line further on.
pub open spec fn line_start(s: Seq<char>, line: nat) -> Option<nat> {
    if line == 0 {
        Some(0)
    } else {
        match nth_newline(s, line) {
            Some(k) => Some(utf8_len(s.take(k)) + 1),
            None => if newline_count(s) == line - 1 {
                Some(
                    if s.len() == 0 {
                        1
                    } else {
                        utf8_len(s.take(s.len() - 1)) + 1
                    },
                )
            } else {
                None
            },
        }
    }
}

/// Encoding two texts one after the other gives their encodings one after
/// the other.
pub proof fn lemma_encode_concat(a: Seq<char>, b: Seq<char>)
    ensures
        utf8_len(a + b) == utf8_len(a) + utf8_len(b),
    decreases b.len(),
{
    if b.len() > 0 {
        lemma_encode_concat(a, b.drop_last());
        assert(a + b == (a + b.drop_last()).push(b.last()));
        assert(b == b.drop_last().push(b.last()));
        lemma_encode_push(a + b.drop_last(), b.last());
        lemma_encode_push(b.drop_last(), b.last());
    } else {
        assert(a + b == a);
        assert(vstd::utf8::encode_utf8(b) =~= Seq::<u8>::empty());
    }
}

/// A prefix takes no more bytes than the whole text.
pub proof fn lemma_utf8_prefix_le(s: Seq<char>, j: int)
    requires
        0 <= j <= s.len(),
    ensures
        utf8_len(s.take(j)) <= utf8_len(s),
{
    lemma_encode_concat(s.take(j), s.skip(j));
    assert(s.take(j) + s.skip(j) == s);
}

pub(crate) proof fn lemma_count_prefix_le(s: Seq<char>, j: int)
    requires
        0 <= j <= s.len(),
    ensures
        newline_count(s.take(j)) <= newline_count(s),
    decreases s.len(),
{
    if j < s.len() {
        assert(s.drop_last().take(j) == s.take(j));
        lemma_count_prefix_le(s.drop_last(), j);
    } else {
        assert(s.take(j) == s);
    }
}

pub(crate) proof fn lemma_nth_found(s: Seq<char>, i: int, n: nat)
    requires
        0 <= i < s.len(),
        s[i] == '\n',
        newline_count(s.take(i + 1)) == n,
    ensures
        nth_newline(s, n) == Some(i),
    decreases s.len(),
{
    if s.len() == i + 1 {
        assert(s.take(i + 1) == s);
    } else {
        assert(s.drop_last().take(i + 1) == s.take(i + 1));
        assert(s.drop_last()[i] == s[i]);
        lemma_nth_found(s.drop_last(), i, n);
        lemma_count_prefix_le(s.drop_last(), i + 1);
    }
}

/// Where line `line` of `s` starts, in bytes (see `line_start`).
pub fn index_of_first_char_in_line(s: &str, line: u32) -> (r: Option<usize>)
    requires
        utf8_len(s@) < usize::MAX,
    ensures
        match line_start(s@, line as nat) {
            Some(v) => r == Some(v as usize),
            None => r is None,
        },
{
    if line == 0 {
        return Some(0);
    }
    let cs = chars_of(s);
    let mut current_line: u32 = 0;
    let mut bytes: usize = 0;
    let mut index: usize = 0;
    let mut i: usize = 0;
    while i < cs.len()
        invariant
            i <= cs@.len(),
            cs@ == s@,
            line > 0,
            utf8_len(s@) < usize::MAX,
            bytes == utf8_len(cs@.take(i as int)),
            current_line == newline_count(cs@.take(i as int)),
            current_line < line,
            nth_newline(cs@.take(i as int), line as nat) is None,
            i > 0 ==> index == utf8_len(cs@.take(i - 1)),
            i == 0 ==> index == 0,
        decreases cs.len() - i,
    {
        let c = cs[i];
        let ghost pre = cs@.take(i as int);
        assert(cs@.take(i + 1) == pre.push(c));
        assert(cs@.take(i + 1).drop_last() == pre);
        proof {
            lemma_encode_push(pre, c);
            lemma_utf8_prefix_le(cs@, i + 1);
        }
        let w = char_width(c);
        if c == '\n' {
            current_line = current_line + 1;
            if current_line == line {
                proof { lemma_nth_found(cs@, i as int, line as nat); }
                return Some(bytes + 1);
            }
        }
        index = bytes;
        bytes = bytes + w;
        i = i + 1;
    }
    assert(cs@.take(cs@.len() as int) == cs@);
    if current_line == line - 1 {
        proof {
            if cs@.len() > 0 {
                lemma_utf8_prefix_le(cs@, cs@.len() - 1);
            }
        }
        return Some(index + 1);
    }
    None
}

/// The character that an editor position points at, counted over the whole
/// text: the start of its line (or the end of the text for a line further
/// on) plus the column, cut back to the last byte offset when it runs past
/// the text. The line start is in bytes and the column in characters, and
/// both are used as a character count, as the editor protocol code does.
pub open spec fn position_target(s: Seq<char>, line: u32, character: u32) -> int {
    let start = match line_start(s, line as nat) {
        Some(v) => v as int,
        None => utf8_len(s) as int,
    };
    let index = start + character;
    if index >= utf8_len(s) {
        utf8_len(s) - 1
    } else {
        index
    }
}

/// The byte offset of an editor position: 0 in an empty text, else where the
/// character `position_target` picks begins.
pub fn get_byte_index_from_position(s: &str, line: u32, character: u32) -> (r: usize)
    requires
        utf8_len(s@) < usize::MAX,
        s@.len() > 0 ==> match line_start(s@, line as nat) {
            Some(v) => v + character <= usize::MAX,
            None => utf8_len(s@) + character <= usize::MAX,
        },
        s@.len() > 0 ==> position_target(s@, line, character) < s@.len(),
    ensures
        s@.len() == 0 ==> r == 0,
        s@.len() > 0 ==> r == utf8_len(s@.take(position_target(s@, line, character))),
{
    let cs = chars_of(s);
    if cs.len() == 0 {
        return 0;
    }
    let total = byte_len(&cs);
    let line_start = match index_of_first_char_in_line(s, line) {
        Some(v) => v,
        None => total,
    };
    let char_index = line_start + character as usize;
    let k = if char_index >= total { total - 1 } else { char_index };
    byte_offset_of(&cs, k)
}

/// The number of bytes that the encoding of `cs` takes.
fn byte_len(cs: &Vec<char>) -> (r: usize)
    requires
        utf8_len(cs@) < usize::MAX,
    ensures
        r == utf8_len(cs@),
{
    let mut n: usize = 0;
    let mut i: usize = 0;
    while i < cs.len()
        invariant
            i <= cs@.len(),
            utf8_len(cs@) < usize::MAX,
            n == utf8_len(cs@.take(i as int)),
        decreases cs.len() - i,
    {
        proof {
            assert(cs@.take(i + 1) == cs@.take(i as int).push(cs@[i as int]));
            lemma_encode_push(cs@.take(i as int), cs@[i as int]);
            lemma_utf8_prefix_le(cs@, i + 1);
        }
        n = n + char_width(cs[i]);
        i = i + 1;
    }
    assert(cs@.take(cs@.len() as int) == cs@);
    n
}

/// Where the `k`-th character begins, in bytes.
fn byte_offset_of(cs: &Vec<char>, k: usize) -> (r: usize)
    requires
        k < cs@.len(),
        utf8_len(cs@) < usize::MAX,
    ensures
        r == utf8_len(cs@.take(k as int)),
{
    let mut n: usize = 0;
    let mut i: usize = 0;
    while i < k
        invariant
            i <= k < cs@.len(),
            utf8_len(cs@) < usize::MAX,
            n == utf8_len(cs@.take(i as int)),
        decreases k - i,
    {
        proof {
            assert(cs@.take(i + 1) == cs@.take(i as int).push(cs@[i as int]));
            lemma_encode_push(cs@.take(i as int), cs@[i as int]);
            lemma_utf8_prefix_le(cs@, i + 1);
        }
        n = n + char_width(cs[i]);
        i = i + 1;
    }
    n
}

pub open spec fn file_scheme() -> Seq<char> {
    seq!['f', 'i', 'l', 'e', ':', '/', '/']
}

/// A path without a leading `file://`.
pub fn remove_file_prefix(path: &str) -> (r: Option<String>)
    ensures
        r matches Some(p) && p@ == if crate::lock::starts_with(path@, file_scheme()) {
            path@.skip(7)
        } else {
            path@
        },
{
    let cs = chars_of(path);
    let n = cs.len();
    if n >= 7 && cs[0] == 'f' && cs[1] == 'i' && cs[2] == 'l' && cs[3] == 'e' && cs[4] == ':' && cs[5] == '/'
        && cs[6] == '/' {
        assert(cs@.take(7) =~= file_scheme());
        assert(cs@.subrange(7, n as int) == cs@.skip(7));
        Some(crate::text::string_from_range(&cs, 7, n))
    } else {
        assert(!crate::lock::starts_with(path@, file_scheme())) by {
            if crate::lock::starts_with(path@, file_scheme()) {
                assert(cs@[0] == cs@.take(7)[0] && cs@[1] == cs@.take(7)[1] && cs@[2] == cs@.take(7)[2]);
                assert(cs@[3] == cs@.take(7)[3] && cs@[4] == cs@.take(7)[4] && cs@[5] == cs@.take(7)[5]);
                assert(cs@[6] == cs@.take(7)[6]);
            }
        }
        Some(string_from(&cs))
    }
}

/// Names whether `char::is_alphanumeric` holds of a character.
pub uninterp spec fn alphanumeric(c: char) -> bool;

/// Tests a character with `char::is_alphanumeric`; claims that the answer is
/// what the name `alphanumeric` gives.
#[verifier::external_body]
fn is_alphanumeric(c: char) -> (r: bool)
    ensures
        r == alphanumeric(c),
{
    c.is_alphanumeric()
}

/// The letters and digits of `s`, in order.
pub open spec fn alphanumerics(s: Seq<char>) -> Seq<char> {
    s.filter(|c: char| alphanumeric(c))
}

/// A crate name as the offline index keys it: lower-cased, letters and
/// digits only.
pub fn normalize_key(key: &str) -> (r: String)
    ensures
        r@ == alphanumerics(crate::offline::lowercase(key@)),
{
    let low = crate::offline::to_lower_text(key);
    let cs = chars_of(low.as_str());
    let mut out: Vec<char> = Vec::new();
    let mut i: usize = 0;
    while i < cs.len()
        invariant
            i <= cs@.len(),
            out@ == alphanumerics(cs@.take(i as int)),
        decreases cs.len() - i,
    {
        proof {
            assert(cs@.take(i + 1) == cs@.take(i as int).push(cs@[i as int]));
            cs@.take(i as int).lemma_filter_push(cs@[i as int], |c: char| alphanumeric(c));
        }
        if is_alphanumeric(cs[i]) {
            out.push(cs[i]);
        }
        i = i + 1;
    }
    assert(cs@.take(cs@.len() as int) == cs@);
    string_from(&out)
}

/// The version of this crate.
pub fn crate_version() -> (r: &'static str)
    ensures
        r@ == "0.1.0"@,
{
    "0.1.0"
}

} // verus!
