//! Formatting a manifest with taplo's formatter, indented as the editor asks.
use vstd::prelude::*;
use crate::text::{chars_of, string_from};

verus! {

/// How the editor indents: a number of spaces, or a tab.
#[derive(Clone, Copy, Debug, PartialEq, Eq, Structural)]
pub enum Indent {
    Spaces(u32),
    Tab,
}

/// The text of one level of indentation.
pub open spec fn indent_text(indent: Indent) -> Seq<char> {
    match indent {
        Indent::Spaces(n) => Seq::new(n as nat, |_i: int| ' '),
        Indent::Tab => seq!['\t'],
    }
}

/// Whether a carriage return directly precedes a line feed somewhere.
pub open spec fn has_crlf(s: Seq<char>) -> bool {
    exists|i: int| 0 <= i && i + 1 < s.len() && s[i] == '\r' && #[trigger] s[i + 1] == '\n'
}

/// What taplo's formatter makes of `src` with the given indentation, final
/// line break, key and array ordering and line ends.
pub uninterp spec fn formatted(src: Seq<char>, indent: Seq<char>, trailing_newline: bool, reorder: bool, crlf: bool) -> Seq<char>;

/// Formats `src` with `taplo::formatter::format`: the indentation string,
/// the final line break, the reordering of keys and of arrays (both by
/// `reorder`), at most two blank lines, and `\r\n` line ends by `crlf`; the
/// other options keep taplo's defaults. The result is a function of these
/// arguments alone.
#[verifier::external_body]
fn taplo_format(src: &str, indent: String, trailing_newline: bool, reorder: bool, crlf: bool) -> (r: String)
    ensures
        r@ == formatted(src@, indent@, trailing_newline, reorder, crlf),
{
    let options = taplo::formatter::Options {
        indent_string: indent,
        trailing_newline,
        reorder_keys: reorder,
        reorder_arrays: reorder,
        allowed_blank_lines: 2,
        crlf,
        ..Default::default()
    };
    taplo::formatter::format(src, options)
}

impl Indent {
    /// The text of one level of indentation: `n` spaces, or a tab.
    pub fn to_string(&self) -> (r: String)
        ensures
            r@ == indent_text(*self),
    {
        match self {
            Indent::Spaces(n) => {
                let mut out: Vec<char> = Vec::new();
                let mut i: u32 = 0;
                while i < *n
                    invariant
                        i <= *n,
                        out@ == Seq::new(i as nat, |_k: int| ' '),
                    decreases *n - i,
                {
                    out.push(' ');
                    i = i + 1;
                    assert(out@ =~= Seq::new(i as nat, |_k: int| ' '));
                }
                string_from(&out)
            },
            Indent::Tab => {
                let out = chars_of("\t");
                proof {
                    reveal_strlit("\t");
                }
                string_from(&out)
            },
        }
    }
}

/// Whether the text holds a `\r\n`.
pub fn contains_crlf(s: &str) -> (r: bool)
    ensures
        r == has_crlf(s@),
{
    let cs = chars_of(s);
    let mut i: usize = 0;
    while i < cs.len()
        invariant
            cs@ == s@,
            i <= cs@.len(),
            forall|k: int| 0 <= k < i && k + 1 < cs@.len() ==> !(cs@[k] == '\r' && #[trigger] cs@[k + 1] == '\n'),
        decreases cs.len() - i,
    {
        if i + 1 < cs.len() && cs[i] == '\r' && cs[i + 1] == '\n' {
            return true;
        }
        i = i + 1;
    }
    assert forall|k: int| 0 <= k && k + 1 < cs@.len() implies !(cs@[k] == '\r' && #[trigger] cs@[k + 1] == '\n') by {
        assert(k < i);
    }
    false
}

/// The formatted manifest: taplo's formatter with the editor's indentation
/// and final line break, keys and arrays sorted when `sort` is set, and the
/// line ends of the text (`\r\n` where it holds one).
pub fn format_manifest(content: &str, sort: bool, trailing_new_line: bool, indent: Indent) -> (r: String)
    ensures
        r@ == formatted(content@, indent_text(indent), trailing_new_line, sort, has_crlf(content@)),
{
    let crlf = contains_crlf(content);
    taplo_format(content, indent.to_string(), trailing_new_line, sort, crlf)
}

} // verus!
