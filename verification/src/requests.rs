//! The addresses the registry is asked at, and what is kept of its answers:
//! a crate's index file, the search, a crate's metadata and its readme.
use vstd::prelude::*;
use crate::info_api::Root1;
use crate::lock::chars_in_bytes;
use crate::text::{chars_of, decimal, decimal_chars, push_str, string_from, string_from_range};
use crate::toml::utf8_len;

verus! {

// ---------------------------------------------------------------------------
// Percent-encoding.

/// Whether a byte stays as it is in a query: an ASCII letter or digit, or
/// one of `-`, `.`, `_`, `~`.
pub open spec fn unreserved(b: u8) -> bool {
    (48 <= b <= 57) || (65 <= b <= 90) || (97 <= b <= 122) || b == 45 || b == 46 || b == 95 || b == 126
}

/// The upper-case hexadecimal digit of `d` (below 16).
pub open spec fn hex_digit(d: u8) -> char {
    if d < 10 {
        ((48 + d) as u32) as char
    } else {
        ((55 + d) as u32) as char
    }
}

/// The percent-encoding of a byte string: each byte that is not
/// `unreserved` written as `%` and two upper-case hexadecimal digits.
pub open spec fn percent_encoded(bytes: Seq<u8>) -> Seq<char>
    decreases bytes.len(),
{
    if bytes.len() == 0 {
        seq![]
    } else {
        let b = bytes.last();
        percent_encoded(bytes.drop_last()) + if unreserved(b) {
            seq![(b as u32) as char]
        } else {
            seq!['%', hex_digit(b / 16), hex_digit(b % 16)]
        }
    }
}

/// The upper-case hexadecimal digit of `d` (below 16).
fn hex_char(d: u8) -> (r: char)
    requires
        d < 16,
    ensures
        r == hex_digit(d),
{
    if d < 10 {
        (48 + d) as char
    } else {
        (55 + d) as char
    }
}

/// Percent-encodes the UTF-8 bytes of `s` as `urlencoding::encode` does:
/// ASCII letters and digits and `-`, `.`, `_`, `~` stay, every other byte
/// becomes `%` and two upper-case hexadecimal digits.
fn url_encode(s: &str) -> (r: String)
    ensures
        r@ == percent_encoded(vstd::utf8::encode_utf8(s@)),
{
    let bytes = s.as_bytes_vec();
    let mut out: Vec<char> = Vec::new();
    let mut i: usize = 0;
    while i < bytes.len()
        invariant
            i <= bytes@.len(),
            bytes@ == vstd::utf8::encode_utf8(s@),
            out@ == percent_encoded(bytes@.take(i as int)),
        decreases bytes.len() - i,
    {
        let b = bytes[i];
        assert(bytes@.take(i + 1).drop_last() =~= bytes@.take(i as int));
        assert(bytes@.take(i + 1).last() == b);
        let keep = (48 <= b && b <= 57) || (65 <= b && b <= 90) || (97 <= b && b <= 122) || b == 45 || b == 46 || b == 95
            || b == 126;
        let ghost before = out@;
        if keep {
            out.push(b as char);
            assert(out@ =~= before + seq![(b as u32) as char]);
        } else {
            out.push('%');
            out.push(hex_char(b / 16));
            out.push(hex_char(b % 16));
            assert(out@ =~= before + seq!['%', hex_digit(b / 16), hex_digit(b % 16)]);
        }
        i = i + 1;
    }
    assert(bytes@.take(i as int) =~= bytes@);
    string_from(&out)
}

// ---------------------------------------------------------------------------
// Addresses.

/// The registry's address, ending with `/`.
pub open spec fn with_slash(registry: Seq<char>) -> Seq<char> {
    if registry.len() > 0 && registry.last() == '/' {
        registry
    } else {
        registry.push('/')
    }
}

/// Whether the index path of `name` can be cut where the index layout cuts
/// it: after its first byte for a three-byte name, after its second and
/// fourth bytes for a longer one.
pub open spec fn index_path_ok(name: Seq<char>) -> bool {
    &&& utf8_len(name) == 3 ==> chars_in_bytes(name, 1) is Some
    &&& utf8_len(name) >= 4 ==> chars_in_bytes(name, 2) is Some && chars_in_bytes(name, 4) is Some
}

/// The path of a crate's file in a sparse index, by the byte length of its
/// name: `1/name`, `2/name`, `3/n/name` with its first byte, else
/// `na/me/name` with its first two and next two bytes; none for an empty
/// name.
pub open spec fn index_path(name: Seq<char>) -> Option<Seq<char>> {
    let n = utf8_len(name);
    if n == 0 {
        None
    } else if n == 1 {
        Some(seq!['1', '/'] + name)
    } else if n == 2 {
        Some(seq!['2', '/'] + name)
    } else if n == 3 {
        Some(seq!['3', '/'] + name.take(chars_in_bytes(name, 1)->Some_0 as int) + seq!['/'] + name)
    } else {
        let k2 = chars_in_bytes(name, 2)->Some_0 as int;
        let k4 = chars_in_bytes(name, 4)->Some_0 as int;
        Some(name.take(k2) + seq!['/'] + name.subrange(k2, k4) + seq!['/'] + name)
    }
}

/// The address of a crate's file in the registry's sparse index; none for
/// an empty name.
pub fn index_url(registry: &str, name: &str) -> (r: Option<String>)
    requires
        index_path_ok(name@),
        utf8_len(name@) <= usize::MAX,
    ensures
        match index_path(name@) {
            Some(p) => r matches Some(u) && u@ == with_slash(registry@) + p,
            None => r is None,
        },
{
    let mut out = chars_of(registry);
    let n = out.len();
    if !(n > 0 && out[n - 1] == '/') {
        out.push('/');
    }
    assert(out@ == with_slash(registry@));
    let bytes = name.len();
    assert(bytes == utf8_len(name@));
    if bytes == 0 {
        return None;
    }
    let cs = chars_of(name);
    let ghost base = out@;
    if bytes == 1 {
        push_str(&mut out, "1/");
        push_str(&mut out, name);
        proof { reveal_strlit("1/"); }
        assert(out@ =~= base + (seq!['1', '/'] + name@));
    } else if bytes == 2 {
        push_str(&mut out, "2/");
        push_str(&mut out, name);
        proof { reveal_strlit("2/"); }
        assert(out@ =~= base + (seq!['2', '/'] + name@));
    } else if bytes == 3 {
        let k1 = crate::document::chars_upto(&cs, 1);
        let first = string_from_range(&cs, 0, k1);
        push_str(&mut out, "3/");
        push_str(&mut out, first.as_str());
        push_str(&mut out, "/");
        push_str(&mut out, name);
        proof {
            reveal_strlit("3/");
            reveal_strlit("/");
        }
        assert(cs@.subrange(0, k1 as int) == name@.take(k1 as int));
        assert(out@ =~= base + (seq!['3', '/'] + name@.take(k1 as int) + seq!['/'] + name@));
    } else {
        let k2 = crate::document::chars_upto(&cs, 2);
        let k4 = crate::document::chars_upto(&cs, 4);
        proof { lemma_chars_in_bytes_mono(name@, 2, 4); }
        let first = string_from_range(&cs, 0, k2);
        let second = string_from_range(&cs, k2, k4);
        push_str(&mut out, first.as_str());
        push_str(&mut out, "/");
        push_str(&mut out, second.as_str());
        push_str(&mut out, "/");
        push_str(&mut out, name);
        proof { reveal_strlit("/"); }
        assert(cs@.subrange(0, k2 as int) == name@.take(k2 as int));
        assert(out@ =~= base + (name@.take(k2 as int) + seq!['/'] + name@.subrange(k2 as int, k4 as int) + seq!['/']
            + name@));
    }
    Some(string_from(&out))
}

/// Fewer bytes take no more characters.
pub proof fn lemma_chars_in_bytes_mono(s: Seq<char>, a: nat, b: nat)
    requires
        a <= b,
        chars_in_bytes(s, a) is Some,
        chars_in_bytes(s, b) is Some,
    ensures
        chars_in_bytes(s, a)->Some_0 <= chars_in_bytes(s, b)->Some_0,
    decreases s.len(),
{
    if a > 0 && s.len() > 0 {
        let w = utf8_len(seq![s[0]]);
        lemma_chars_in_bytes_mono(s.drop_first(), (a - w) as nat, (b - w) as nat);
    }
}

/// The address of the registry's search for `name`, `per_page` results on
/// the first page, by relevance.
pub fn search_url(per_page: usize, name: &str) -> (r: String)
    ensures
        r@ == "https://crates.io/api/v1/crates?page=1&per_page="@ + decimal(per_page as nat) + "&q="@ + percent_encoded(
            vstd::utf8::encode_utf8(name@),
        ) + "&sort=relevance"@,
{
    let mut out = chars_of("https://crates.io/api/v1/crates?page=1&per_page=");
    let digits = decimal_chars(per_page as u64);
    let ghost a = out@;
    let mut i: usize = 0;
    while i < digits.len()
        invariant
            i <= digits@.len(),
            out@ == a + digits@.take(i as int),
        decreases digits.len() - i,
    {
        out.push(digits[i]);
        i = i + 1;
        assert(out@ =~= a + digits@.take(i as int));
    }
    assert(digits@.take(digits@.len() as int) == digits@);
    push_str(&mut out, "&q=");
    push_str(&mut out, url_encode(name).as_str());
    push_str(&mut out, "&sort=relevance");
    string_from(&out)
}

/// The address of a crate's metadata.
pub fn crate_url(name: &str) -> (r: String)
    ensures
        r@ == "https://crates.io/api/v1/crates/"@ + name@,
{
    let mut out = chars_of("https://crates.io/api/v1/crates/");
    push_str(&mut out, name);
    string_from(&out)
}

/// The address of the readme of a crate's version.
pub fn readme_url(name: &str, version: &str) -> (r: String)
    ensures
        r@ == "https://static.crates.io/readmes/"@ + name@ + "/"@ + name@ + "-"@ + version@ + ".html"@,
{
    let mut out = chars_of("https://static.crates.io/readmes/");
    push_str(&mut out, name);
    push_str(&mut out, "/");
    push_str(&mut out, name);
    push_str(&mut out, "-");
    push_str(&mut out, version);
    push_str(&mut out, ".html");
    string_from(&out)
}

// ---------------------------------------------------------------------------
// Answers.
//
// A readme arrives as HTML and is shown as Markdown by `html2md`; that
// conversion panics on some HTML (a list item outside any list, inside
// bold text, for one) for which no condition on the text is known, so it
// is made by the command-line front end, not here.

pub open spec fn is_listed(v: Root1) -> bool {
    !v.yanked
}

/// The versions of an index file that are offered: those not yanked, in
/// the order of the file.
pub fn listed(items: Vec<Root1>) -> (r: Vec<Root1>)
    ensures
        r@ == items@.filter(|v: Root1| is_listed(v)),
{
    let ghost all = items@;
    let ghost pred = |v: Root1| is_listed(v);
    let _n = items.len();
    let mut rest = items;
    let mut out: Vec<Root1> = Vec::new();
    let mut i: usize = 0;
    while rest.len() > 0
        invariant
            all.len() <= usize::MAX,
            i + rest@.len() == all.len(),
            rest@ == all.skip(i as int),
            out@ == all.take(i as int).filter(pred),
            pred == (|v: Root1| is_listed(v)),
        decreases rest.len(),
    {
        let x = rest.remove(0);
        proof {
            assert(all[i as int] == x);
            assert(all.take(i + 1) == all.take(i as int).push(x));
            all.take(i as int).lemma_filter_push(x, pred);
        }
        if !x.yanked {
            out.push(x);
        }
        assert(rest@ =~= all.skip(i + 1));
        i = i + 1;
    }
    assert(all.take(all.len() as int) == all);
    out
}

} // verus!
