//! Versions as crate registries write them: `major.minor.patch`, an optional
//! `-pre` release tag and an optional `+build` tag.
use std::cmp::Ordering;
use vstd::prelude::*;
use crate::order::{char_seq_order, ordering_sign, compare_chars};
use crate::text::{
    chars_of, decimal, find_char, parse_u32_spec, ParseIntError, string_from, string_from_range,
    find_char_in, parse_u32_range, decimal_chars, append_chars,
};

verus! {

/// A version; a missing part stands for "any".
#[derive(Debug, Clone)]
pub struct RustVersion {
    major: Option<u32>,
    minor: Option<u32>,
    patch: Option<u32>,
    pre: Option<String>,
    build: Option<String>,
}

/// The mathematical value of a [`RustVersion`].
pub struct VersionView {
    pub major: Option<u32>,
    pub minor: Option<u32>,
    pub patch: Option<u32>,
    pub pre: Option<Seq<char>>,
    pub build: Option<Seq<char>>,
}

pub open spec fn opt_chars(s: Option<String>) -> Option<Seq<char>> {
    match s {
        Some(v) => Some(v@),
        None => None,
    }
}

impl View for RustVersion {
    type V = VersionView;

    closed spec fn view(&self) -> VersionView {
        VersionView {
            major: self.major,
            minor: self.minor,
            patch: self.patch,
            pre: opt_chars(self.pre),
            build: opt_chars(self.build),
        }
    }
}

/// Splits at the first `c`: the part before it, and the part after it if
/// there is a `c`.
pub open spec fn split_first(s: Seq<char>, c: char) -> (Seq<char>, Option<Seq<char>>) {
    match find_char(s, c) {
        Some(i) => (s.take(i), Some(s.skip(i + 1))),
        None => (s, None),
    }
}

/// The pieces of `s` split at its first two dots, as `splitn(3, '.')` gives them.
pub open spec fn dot_pieces(s: Seq<char>) -> Seq<Seq<char>> {
    match find_char(s, '.') {
        None => seq![s],
        Some(i) => {
            let rest = s.skip(i + 1);
            match find_char(rest, '.') {
                None => seq![s.take(i), rest],
                Some(j) => seq![s.take(i), rest.take(j), rest.skip(j + 1)],
            }
        },
    }
}

/// What `RustVersion::try_from` gives for the text `s`.
pub open spec fn parse_version(s: Seq<char>) -> Result<VersionView, ParseIntError> {
    let (version_part, build) = split_first(s, '+');
    let (core, pre) = split_first(version_part, '-');
    let items = dot_pieces(core);
    match parse_u32_spec(items[0]) {
        Err(e) => Err(e),
        Ok(major) => if items.len() == 1 {
            Ok(VersionView { major: Some(major), minor: None, patch: None, pre, build })
        } else {
            match parse_u32_spec(items[1]) {
                Err(e) => Err(e),
                Ok(minor) => if items.len() == 2 {
                    Ok(VersionView { major: Some(major), minor: Some(minor), patch: None, pre, build })
                } else {
                    match parse_u32_spec(items[2]) {
                        Err(e) => Err(e),
                        Ok(patch) => Ok(VersionView {
                            major: Some(major),
                            minor: Some(minor),
                            patch: Some(patch),
                            pre,
                            build,
                        }),
                    }
                },
            }
        },
    }
}

/// The text that `RustVersion::to_string` writes.
pub open spec fn version_text(v: VersionView) -> Seq<char> {
    let core = match v.major {
        None => seq!['*'],
        Some(major) => match v.minor {
            None => decimal(major as nat),
            Some(minor) => match v.patch {
                None => decimal(major as nat) + seq!['.'] + decimal(minor as nat),
                Some(patch) => decimal(major as nat) + seq!['.'] + decimal(minor as nat) + seq!['.']
                    + decimal(patch as nat),
            },
        },
    };
    let with_pre = match v.pre {
        Some(pre) => core + seq!['-'] + pre,
        None => core,
    };
    match v.build {
        Some(build) => with_pre + seq!['+'] + build,
        None => with_pre,
    }
}

impl RustVersion {
    pub fn mahor(&self) -> (r: Option<u32>)
        ensures
            r == self@.major,
    {
        proof { reveal_view(self); }
        self.major
    }

    pub fn minor(&self) -> (r: Option<u32>)
        ensures
            r == self@.minor,
    {
        proof { reveal_view(self); }
        self.minor
    }

    pub fn patch(&self) -> (r: Option<&u32>)
        ensures
            r matches Some(p) ==> self@.patch == Some(*p),
            r is None ==> self@.patch is None,
    {
        proof { reveal_view(self); }
        self.patch.as_ref()
    }

    pub fn is_pre_release(&self) -> (r: bool)
        ensures
            r == self@.pre is Some,
    {
        proof { reveal_view(self); }
        self.pre.is_some()
    }
}

/// Where the `+build` and `-pre` tags of `cs` begin: the end of the
/// numeric core, the pre-release tag and the build tag.
fn split_tags(cs: &Vec<char>) -> (r: (usize, Option<String>, Option<String>))
    ensures
        r.0 <= cs@.len(),
        ({
            let (version_part, build) = split_first(cs@, '+');
            let (core, pre) = split_first(version_part, '-');
            core == cs@.subrange(0, r.0 as int) && pre == opt_chars(r.1) && build == opt_chars(r.2)
        }),
{
    let n = cs.len();
    let ghost s = cs@;
    assert(cs@.subrange(0, n as int) == s);
    let plus = find_char_in(cs, 0, n, '+');
    let mut vp_end = n;
    let mut build: Option<String> = None;
    if let Some(i) = plus {
        vp_end = i;
        build = Some(string_from_range(cs, i + 1, n));
        assert(s.take(i as int) == cs@.subrange(0, i as int));
        assert(s.skip(i + 1) == cs@.subrange(i + 1, n as int));
    }
    let ghost vp = cs@.subrange(0, vp_end as int);
    assert(split_first(s, '+') == (vp, opt_chars(build)));
    let minus = find_char_in(cs, 0, vp_end, '-');
    let mut core_end = vp_end;
    let mut pre: Option<String> = None;
    if let Some(i) = minus {
        core_end = i;
        pre = Some(string_from_range(cs, i + 1, vp_end));
        assert(vp.take(i as int) == cs@.subrange(0, i as int));
        assert(vp.skip(i + 1) == cs@.subrange(i + 1, vp_end as int));
    }
    assert(split_first(vp, '-') == (cs@.subrange(0, core_end as int), opt_chars(pre)));
    (core_end, pre, build)
}

/// Where the numeric parts of `cs[..end]` lie: the ends of the first one
/// or two dot-separated pieces.
pub fn split_dots(cs: &Vec<char>, end: usize) -> (r: (Option<usize>, Option<usize>))
    requires
        end <= cs@.len(),
    ensures
        ({
            let items = dot_pieces(cs@.subrange(0, end as int));
            match r {
                (None, _) => items == seq![cs@.subrange(0, end as int)],
                (Some(i), None) => i < end && items == seq![
                    cs@.subrange(0, i as int),
                    cs@.subrange(i + 1, end as int),
                ],
                (Some(i), Some(j)) => i < j < end && items == seq![
                    cs@.subrange(0, i as int),
                    cs@.subrange(i + 1, j as int),
                    cs@.subrange(j + 1, end as int),
                ],
            }
        }),
{
    let ghost core = cs@.subrange(0, end as int);
    let dot1 = find_char_in(cs, 0, end, '.');
    match dot1 {
        None => (None, None),
        Some(i) => {
            let ghost rest = core.skip(i + 1);
            assert(rest == cs@.subrange(i + 1, end as int));
            assert(core.take(i as int) == cs@.subrange(0, i as int));
            let dot2 = find_char_in(cs, i + 1, end, '.');
            match dot2 {
                None => (Some(i), None),
                Some(j) => {
                    assert(rest.take(j - (i + 1)) == cs@.subrange(i + 1, j as int));
                    assert(rest.skip(j - (i + 1) + 1) == cs@.subrange(j + 1, end as int));
                    (Some(i), Some(j))
                },
            }
        },
    }
}

impl RustVersion {
    /// Reads a version such as `1.2.3-beta.1+build5`. Missing minor and
    /// patch parts stay `None`; a part that is not a `u32` is an error.
    pub fn try_from(value: &str) -> (r: Result<RustVersion, ParseIntError>)
        ensures
            r matches Ok(v) ==> parse_version(value@) == Ok::<VersionView, ParseIntError>(v@),
            r matches Err(e) ==> parse_version(value@) == Err::<VersionView, ParseIntError>(e),
    {
        let cs = chars_of(value);
        let (core_end, pre, build) = split_tags(&cs);
        let (dot1, dot2) = split_dots(&cs, core_end);
        let first_end = match dot1 { Some(i) => i, None => core_end };
        let major = match parse_u32_range(&cs, 0, first_end) {
            Ok(v) => v,
            Err(e) => return Err(e),
        };
        let i = match dot1 {
            None => {
                return Ok(RustVersion { major: Some(major), minor: None, patch: None, pre, build });
            },
            Some(i) => i,
        };
        let second_end = match dot2 { Some(j) => j, None => core_end };
        let minor = match parse_u32_range(&cs, i + 1, second_end) {
            Ok(v) => v,
            Err(e) => return Err(e),
        };
        let j = match dot2 {
            None => {
                return Ok(RustVersion { major: Some(major), minor: Some(minor), patch: None, pre, build });
            },
            Some(j) => j,
        };
        let patch = match parse_u32_range(&cs, j + 1, core_end) {
            Ok(v) => v,
            Err(e) => return Err(e),
        };
        Ok(RustVersion { major: Some(major), minor: Some(minor), patch: Some(patch), pre, build })
    }
}

/// Orders two optional numbers; a missing number is the highest.
pub open spec fn opt_u32_order(a: Option<u32>, b: Option<u32>) -> int {
    match (a, b) {
        (Some(x), Some(y)) => if x < y { -1 } else if x == y { 0 } else { 1 },
        (Some(_), None) => -1,
        (None, Some(_)) => 1,
        (None, None) => 0,
    }
}

/// Orders two optional tags by text; a missing tag is the highest.
pub open spec fn opt_chars_order(a: Option<Seq<char>>, b: Option<Seq<char>>) -> int {
    match (a, b) {
        (Some(x), Some(y)) => char_seq_order(x, y),
        (Some(_), None) => -1,
        (None, Some(_)) => 1,
        (None, None) => 0,
    }
}

/// The first of two comparisons that is not a tie.
pub open spec fn then_order(first: int, second: int) -> int {
    if first != 0 {
        first
    } else {
        second
    }
}

/// The order of versions: major, minor, patch, pre-release tag, build tag,
/// each compared in turn.
pub open spec fn version_order(a: VersionView, b: VersionView) -> int {
    then_order(
        opt_u32_order(a.major, b.major),
        then_order(
            opt_u32_order(a.minor, b.minor),
            then_order(
                opt_u32_order(a.patch, b.patch),
                then_order(opt_chars_order(a.pre, b.pre), opt_chars_order(a.build, b.build)),
            ),
        ),
    )
}

/// Two optional parts match when both are present and equal, or when
/// either is missing.
pub open spec fn part_matches<T>(a: Option<T>, b: Option<T>) -> bool {
    match (a, b) {
        (Some(x), Some(y)) => x == y,
        _ => true,
    }
}

/// Whether `a == b` holds: every part matches.
pub open spec fn versions_match(a: VersionView, b: VersionView) -> bool {
    &&& part_matches(a.major, b.major)
    &&& part_matches(a.minor, b.minor)
    &&& part_matches(a.patch, b.patch)
    &&& part_matches(a.pre, b.pre)
    &&& part_matches(a.build, b.build)
}

fn order_of_numbers(a: Option<u32>, b: Option<u32>) -> (r: Ordering)
    ensures
        ordering_sign(r) == opt_u32_order(a, b),
{
    match (a, b) {
        (Some(x), Some(y)) => if x < y {
            Ordering::Less
        } else if x == y {
            Ordering::Equal
        } else {
            Ordering::Greater
        },
        (Some(_), None) => Ordering::Less,
        (None, Some(_)) => Ordering::Greater,
        (None, None) => Ordering::Equal,
    }
}

fn order_of_tags(a: &Option<String>, b: &Option<String>) -> (r: Ordering)
    ensures
        ordering_sign(r) == opt_chars_order(opt_chars(*a), opt_chars(*b)),
{
    match (a, b) {
        (Some(x), Some(y)) => {
            let xs = chars_of(x.as_str());
            let ys = chars_of(y.as_str());
            compare_chars(&xs, &ys)
        },
        (Some(_), None) => Ordering::Less,
        (None, Some(_)) => Ordering::Greater,
        (None, None) => Ordering::Equal,
    }
}

fn tags_match(a: &Option<String>, b: &Option<String>) -> (r: bool)
    ensures
        r == part_matches(opt_chars(*a), opt_chars(*b)),
{
    match (a, b) {
        (Some(x), Some(y)) => x.eq(y),
        _ => true,
    }
}

impl RustVersion {
    /// Compares in the order of `version_order`.
    pub fn cmp(&self, other: &Self) -> (r: Ordering)
        ensures
            ordering_sign(r) == version_order(self@, other@),
    {
        proof {
            reveal_view(self);
            reveal_view(other);
        }
        let o = order_of_numbers(self.major, other.major);
        if !matches!(o, Ordering::Equal) {
            return o;
        }
        let o = order_of_numbers(self.minor, other.minor);
        if !matches!(o, Ordering::Equal) {
            return o;
        }
        let o = order_of_numbers(self.patch, other.patch);
        if !matches!(o, Ordering::Equal) {
            return o;
        }
        let o = order_of_tags(&self.pre, &other.pre);
        if !matches!(o, Ordering::Equal) {
            return o;
        }
        order_of_tags(&self.build, &other.build)
    }

    pub fn partial_cmp(&self, other: &Self) -> (r: Option<Ordering>)
        ensures
            r matches Some(o) && ordering_sign(o) == version_order(self@, other@),
    {
        Some(self.cmp(other))
    }

    /// Whether `self` comes after `other` in the version order.
    pub fn gt(&self, other: &Self) -> (r: bool)
        ensures
            r == (version_order(self@, other@) > 0),
    {
        match self.cmp(other) {
            Ordering::Greater => true,
            _ => false,
        }
    }

    /// Whether every part that both versions give is the same.
    pub fn eq(&self, other: &Self) -> (r: bool)
        ensures
            r == versions_match(self@, other@),
    {
        proof {
            reveal_view(self);
            reveal_view(other);
        }
        let a = match (self.major, other.major) {
            (Some(x), Some(y)) => x == y,
            _ => true,
        };
        let b = match (self.minor, other.minor) {
            (Some(x), Some(y)) => x == y,
            _ => true,
        };
        let c = match (self.patch, other.patch) {
            (Some(x), Some(y)) => x == y,
            _ => true,
        };
        a && b && c && tags_match(&self.pre, &other.pre) && tags_match(&self.build, &other.build)
    }
}

impl RustVersion {
    /// A copy of the version.
    pub fn clone_version(&self) -> (r: RustVersion)
        ensures
            r@ == self@,
    {
        let pre = match &self.pre {
            Some(t) => Some(crate::text::owned(t.as_str())),
            None => None,
        };
        let build = match &self.build {
            Some(t) => Some(crate::text::owned(t.as_str())),
            None => None,
        };
        RustVersion { major: self.major, minor: self.minor, patch: self.patch, pre, build }
    }
}

impl RustVersion {
    /// Writes the version as `1.2.3-pre+build`, or `*` when the major part
    /// is missing.
    pub fn to_string(&self) -> (r: String)
        ensures
            r@ == version_text(self@),
    {
        proof { reveal_view(self); }
        let mut out: Vec<char> = Vec::new();
        match self.major {
            None => {
                out.push('*');
            },
            Some(major) => {
                let d = decimal_chars(major as u64);
                append_chars(&mut out, &d);
                if let Some(minor) = self.minor {
                    out.push('.');
                    let d = decimal_chars(minor as u64);
                    append_chars(&mut out, &d);
                    if let Some(patch) = self.patch {
                        out.push('.');
                        let d = decimal_chars(patch as u64);
                        append_chars(&mut out, &d);
                    }
                }
            },
        }
        if let Some(pre) = &self.pre {
            out.push('-');
            let d = chars_of(pre.as_str());
            append_chars(&mut out, &d);
        }
        if let Some(build) = &self.build {
            out.push('+');
            let d = chars_of(build.as_str());
            append_chars(&mut out, &d);
        }
        assert(out@ =~= version_text(self@));
        string_from(&out)
    }
}

proof fn reveal_view(v: &RustVersion)
    ensures
        v@ == (VersionView {
            major: v.major,
            minor: v.minor,
            patch: v.patch,
            pre: opt_chars(v.pre),
            build: opt_chars(v.build),
        }),
{
}

/// Comparing two versions the other way round flips the result, the result
/// is `-1`, `0` or `1`, and only equal versions compare as equal.
pub proof fn lemma_version_order_antisymmetric(a: VersionView, b: VersionView)
    ensures
        version_order(a, b) == -version_order(b, a),
        -1 <= version_order(a, b) <= 1,
        version_order(a, b) == 0 <==> a == b,
{
    lemma_opt_chars_order(a.pre, b.pre);
    lemma_opt_chars_order(a.build, b.build);
}

proof fn lemma_opt_chars_order(a: Option<Seq<char>>, b: Option<Seq<char>>)
    ensures
        opt_chars_order(a, b) == -opt_chars_order(b, a),
        -1 <= opt_chars_order(a, b) <= 1,
        opt_chars_order(a, b) == 0 <==> a == b,
{
    if let (Some(x), Some(y)) = (a, b) {
        crate::order::lemma_char_seq_order_basics(x, y);
    }
}

/// The order of versions is transitive.
pub proof fn lemma_version_order_transitive(a: VersionView, b: VersionView, c: VersionView)
    requires
        version_order(a, b) <= 0,
        version_order(b, c) <= 0,
    ensures
        version_order(a, c) <= 0,
{
    lemma_version_order_antisymmetric(a, b);
    lemma_version_order_antisymmetric(b, c);
    lemma_version_order_antisymmetric(a, c);
    lemma_opt_chars_trans(a.pre, b.pre, c.pre);
    lemma_opt_chars_trans(a.build, b.build, c.build);
}

proof fn lemma_opt_chars_trans(a: Option<Seq<char>>, b: Option<Seq<char>>, c: Option<Seq<char>>)
    ensures
        opt_chars_order(a, b) <= 0 && opt_chars_order(b, c) <= 0 ==> opt_chars_order(a, c) <= 0,
        opt_chars_order(a, b) <= 0 && opt_chars_order(b, c) <= 0 && (opt_chars_order(a, b) < 0
            || opt_chars_order(b, c) < 0) ==> opt_chars_order(a, c) < 0,
{
    lemma_opt_chars_order(a, b);
    lemma_opt_chars_order(b, c);
    lemma_opt_chars_order(a, c);
    if let (Some(x), Some(y), Some(z)) = (a, b, c) {
        if char_seq_order(x, y) <= 0 && char_seq_order(y, z) <= 0 {
            crate::order::lemma_char_seq_order_trans(x, y, z);
        }
    }
}

/// Versions that compare as equal are `==`.
pub proof fn lemma_equal_order_matches(a: VersionView, b: VersionView)
    requires
        version_order(a, b) == 0,
    ensures
        versions_match(a, b),
{
    lemma_version_order_antisymmetric(a, b);
}

/// `==` on versions is reflexive and symmetric.
pub proof fn lemma_versions_match_reflexive_symmetric(a: VersionView, b: VersionView)
    ensures
        versions_match(a, a),
        versions_match(a, b) == versions_match(b, a),
{
}

/// A separator that does not occur before it is found at its position, and
/// splitting there gives back the two sides.
proof fn lemma_split_at(a: Seq<char>, c: char, b: Seq<char>)
    requires
        !a.contains(c),
    ensures
        find_char(a + seq![c] + b, c) == Some(a.len() as int),
        (a + seq![c] + b).take(a.len() as int) == a,
        (a + seq![c] + b).skip(a.len() as int + 1) == b,
        split_first(a + seq![c] + b, c) == (a, Some(b)),
{
    assert(a + seq![c] + b == a + (seq![c] + b));
    crate::text::lemma_find_char_concat(a, seq![c] + b, c);
    assert(find_char(seq![c] + b, c) == Some(0int));
    assert((a + seq![c] + b).take(a.len() as int) == a);
    assert((a + seq![c] + b).skip(a.len() as int + 1) == b);
}

proof fn lemma_no_sep(a: Seq<char>, c: char)
    requires
        !a.contains(c),
    ensures
        split_first(a, c) == (a, None::<Seq<char>>),
{
    crate::text::lemma_find_char(a, c);
    if let Some(i) = find_char(a, c) {
        assert(a.contains(c)) by { assert(a[i] == c); }
    }
}

/// The numeric core of `version_text(v)`.
pub open spec fn core_text(v: VersionView) -> Seq<char> {
    match v.major {
        None => seq!['*'],
        Some(major) => match v.minor {
            None => decimal(major as nat),
            Some(minor) => match v.patch {
                None => decimal(major as nat) + seq!['.'] + decimal(minor as nat),
                Some(patch) => decimal(major as nat) + seq!['.'] + decimal(minor as nat) + seq!['.']
                    + decimal(patch as nat),
            },
        },
    }
}

proof fn lemma_decimal_free(n: nat)
    ensures
        !decimal(n).contains('.'),
        !decimal(n).contains('-'),
        !decimal(n).contains('+'),
        find_char(decimal(n), '.') is None,
{
    crate::text::lemma_decimal(n);
    crate::text::lemma_digits_exclude(decimal(n), '.');
    crate::text::lemma_digits_exclude(decimal(n), '-');
    crate::text::lemma_digits_exclude(decimal(n), '+');
    crate::text::lemma_find_char(decimal(n), '.');
}

proof fn lemma_concat_free(a: Seq<char>, b: Seq<char>, c: char)
    requires
        !a.contains(c),
        !b.contains(c),
    ensures
        !(a + b).contains(c),
{
    if (a + b).contains(c) {
        let i = choose|i: int| 0 <= i < (a + b).len() && (a + b)[i] == c;
        if i < a.len() {
            assert(a[i] == c);
        } else {
            assert(b[i - a.len()] == c);
        }
    }
}

proof fn lemma_core_pieces(v: VersionView)
    requires
        v.major is Some,
        v.minor is None ==> v.patch is None,
    ensures
        !core_text(v).contains('-'),
        !core_text(v).contains('+'),
        parse_core(dot_pieces(core_text(v))) == Ok::<(Option<u32>, Option<u32>, Option<u32>), ParseIntError>(
            (v.major, v.minor, v.patch),
        ),
{
    let major = v.major->0;
    lemma_decimal_free(major as nat);
    crate::text::lemma_parse_decimal(major);
    let dm = decimal(major as nat);
    let dot = seq!['.'];
    assert(!dot.contains('-') && !dot.contains('+')) by {
        assert(dot[0] == '.');
    }
    match v.minor {
        None => {
            assert(dot_pieces(dm) == seq![dm]);
        },
        Some(minor) => {
            lemma_decimal_free(minor as nat);
            crate::text::lemma_parse_decimal(minor);
            let dn = decimal(minor as nat);
            lemma_concat_free(dm, dot, '-');
            lemma_concat_free(dm, dot, '+');
            lemma_concat_free(dm + dot, dn, '-');
            lemma_concat_free(dm + dot, dn, '+');
            match v.patch {
                None => {
                    lemma_split_at(dm, '.', dn);
                    assert(dot_pieces(dm + dot + dn) == seq![dm, dn]);
                },
                Some(patch) => {
                    lemma_decimal_free(patch as nat);
                    crate::text::lemma_parse_decimal(patch);
                    let dp = decimal(patch as nat);
                    lemma_concat_free(dm + dot + dn, dot, '-');
                    lemma_concat_free(dm + dot + dn, dot, '+');
                    lemma_concat_free(dm + dot + dn + dot, dp, '-');
                    lemma_concat_free(dm + dot + dn + dot, dp, '+');
                    let whole = dm + dot + dn + dot + dp;
                    assert(whole == dm + dot + (dn + dot + dp));
                    lemma_split_at(dm, '.', dn + dot + dp);
                    lemma_split_at(dn, '.', dp);
                    assert(dot_pieces(whole) == seq![dm, dn, dp]);
                },
            }
        },
    }
}

/// The numeric parts that `parse_version` reads from dot-separated pieces.
pub open spec fn parse_core(items: Seq<Seq<char>>) -> Result<(Option<u32>, Option<u32>, Option<u32>), ParseIntError> {
    match parse_u32_spec(items[0]) {
        Err(e) => Err(e),
        Ok(major) => if items.len() == 1 {
            Ok((Some(major), None, None))
        } else {
            match parse_u32_spec(items[1]) {
                Err(e) => Err(e),
                Ok(minor) => if items.len() == 2 {
                    Ok((Some(major), Some(minor), None))
                } else {
                    match parse_u32_spec(items[2]) {
                        Err(e) => Err(e),
                        Ok(patch) => Ok((Some(major), Some(minor), Some(patch))),
                    }
                },
            }
        },
    }
}

proof fn lemma_parse_version_via_core(s: Seq<char>)
    ensures
        ({
            let (version_part, build) = split_first(s, '+');
            let (core, pre) = split_first(version_part, '-');
            parse_version(s) == match parse_core(dot_pieces(core)) {
                Err(e) => Err(e),
                Ok((major, minor, patch)) => Ok(VersionView { major, minor, patch, pre, build }),
            }
        }),
{
}

/// Reading back the text of a version gives the version, when the text is
/// unambiguous: a major part is present, a patch part only with a minor
/// part, and the pre-release tag holds no `+`.
pub proof fn lemma_text_roundtrip(v: VersionView)
    requires
        v.major is Some,
        v.minor is None ==> v.patch is None,
        v.pre matches Some(p) ==> !p.contains('+'),
    ensures
        parse_version(version_text(v)) == Ok::<VersionView, ParseIntError>(v),
{
    let core = core_text(v);
    lemma_core_pieces(v);
    let with_pre = match v.pre {
        Some(pre) => core + seq!['-'] + pre,
        None => core,
    };
    assert(!seq!['-'].contains('+')) by { assert(seq!['-'][0] == '-'); }
    match v.pre {
        Some(pre) => {
            lemma_concat_free(core, seq!['-'], '+');
            lemma_concat_free(core + seq!['-'], pre, '+');
            lemma_split_at(core, '-', pre);
        },
        None => {
            lemma_no_sep(core, '-');
        },
    }
    match v.build {
        Some(build) => {
            lemma_split_at(with_pre, '+', build);
        },
        None => {
            lemma_no_sep(with_pre, '+');
        },
    }
    lemma_parse_version_via_core(version_text(v));
}

} // verus!
