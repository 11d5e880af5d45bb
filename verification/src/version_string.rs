//! Loose versions whose parts may hold letters, such as `1.0.0-rc1`: each
//! part is read as alternating runs of digits and other characters.
use std::cmp::Ordering;
use vstd::prelude::*;
use crate::order::{char_seq_order, ordering_sign};
use crate::rust_version::{dot_pieces, opt_u32_order, then_order};
use crate::text::{ParseIntError, parse_u32_spec, parse_u32_range, decimal, decimal_chars, append_chars, string_from,
    chars_of, digits_value, is_digit, all_digits, digits_to_u64, string_from_range};

verus! {

/// One run of a version part: a number, or a run of other characters.
pub enum TokenView {
    Int(nat),
    Text(Seq<char>),
}

/// The length of the run that starts `s`: the longest prefix whose
/// characters are all digits or all not.
pub open spec fn run_len(s: Seq<char>) -> nat
    decreases s.len(),
{
    if s.len() <= 1 {
        s.len()
    } else if is_digit(s[1]) == is_digit(s[0]) {
        1 + run_len(s.drop_first())
    } else {
        1
    }
}

/// The maximal runs of `s` whose characters are all digits or all not.
pub open spec fn runs(s: Seq<char>) -> Seq<Seq<char>>
    decreases s.len(),
{
    if s.len() == 0 {
        seq![]
    } else {
        let k = run_len(s);
        if 0 < k <= s.len() {
            seq![s.take(k as int)] + runs(s.skip(k as int))
        } else {
            seq![]
        }
    }
}

pub open spec fn run_token(run: Seq<char>) -> TokenView {
    if run.len() > 0 && is_digit(run[0]) {
        TokenView::Int(digits_value(run))
    } else {
        TokenView::Text(run)
    }
}

/// The tokens of a version part.
pub open spec fn tokens(s: Seq<char>) -> Seq<TokenView> {
    runs(s).map_values(|r: Seq<char>| run_token(r))
}

/// Every run of digits of `s` denotes a number that fits in a `u64`.
pub open spec fn numbers_fit(s: Seq<char>) -> bool
    decreases s.len(),
{
    if s.len() == 0 {
        true
    } else {
        let k = run_len(s);
        if 0 < k <= s.len() {
            (is_digit(s[0]) ==> digits_value(s.take(k as int)) <= u64::MAX) && numbers_fit(s.skip(k as int))
        } else {
            true
        }
    }
}

proof fn lemma_run_len(s: Seq<char>, m: int)
    requires
        0 < m <= s.len(),
        forall|k: int| 0 <= k < m ==> is_digit(#[trigger] s[k]) == is_digit(s[0]),
        m == s.len() || is_digit(s[m]) != is_digit(s[0]),
    ensures
        run_len(s) == m,
    decreases s.len(),
{
    if s.len() > 1 && m > 1 {
        assert(is_digit(s[1]) == is_digit(s[0]));
        let t = s.drop_first();
        assert forall|k: int| 0 <= k < m - 1 implies is_digit(#[trigger] t[k]) == is_digit(t[0]) by {
            assert(t[k] == s[k + 1]);
        }
        lemma_run_len(t, m - 1);
    }
}

/// A number is above any text; numbers compare by value, texts by
/// characters.
pub open spec fn token_order(a: TokenView, b: TokenView) -> int {
    match (a, b) {
        (TokenView::Int(x), TokenView::Int(y)) => if x < y { -1 } else if x == y { 0 } else { 1 },
        (TokenView::Int(_), TokenView::Text(_)) => 1,
        (TokenView::Text(_), TokenView::Int(_)) => -1,
        (TokenView::Text(x), TokenView::Text(y)) => char_seq_order(x, y),
    }
}

/// Token sequences compare element by element; a proper prefix is smaller.
pub open spec fn tokens_order(a: Seq<TokenView>, b: Seq<TokenView>) -> int
    decreases a.len(),
{
    if a.len() == 0 && b.len() == 0 {
        0
    } else if a.len() == 0 {
        -1
    } else if b.len() == 0 {
        1
    } else if token_order(a[0], b[0]) != 0 {
        token_order(a[0], b[0])
    } else {
        tokens_order(a.drop_first(), b.drop_first())
    }
}

/// A run inside a version part.
#[derive(PartialEq, Eq)]
pub enum IntOrString {
    Int(u64),
    String(String),
}

impl View for IntOrString {
    type V = TokenView;

    open spec fn view(&self) -> TokenView {
        match self {
            IntOrString::Int(v) => TokenView::Int(*v as nat),
            IntOrString::String(s) => TokenView::Text(s@),
        }
    }
}

/// One part of a loose version.
#[derive(Debug, Clone, Eq, PartialEq)]
pub struct VersionString(String);

impl View for VersionString {
    type V = Seq<char>;

    closed spec fn view(&self) -> Seq<char> {
        self.0@
    }
}

pub open spec fn token_views(v: Seq<IntOrString>) -> Seq<TokenView> {
    v.map_values(|t: IntOrString| t@)
}

impl VersionString {
    /// The text of this part.
    pub fn as_string(&self) -> (r: &String)
        ensures
            r@ == self@,
    {
        &self.0
    }

    /// Splits the part into runs of digits and runs of other characters.
    pub fn int_or_string(&self) -> (r: Vec<IntOrString>)
        requires
            numbers_fit(self@),
        ensures
            token_views(r@) == tokens(self@),
    {
        let cs = chars_of(self.0.as_str());
        let n = cs.len();
        let mut out: Vec<IntOrString> = Vec::new();
        let mut i: usize = 0;
        assert(cs@.skip(0) == cs@);
        assert(token_views(out@) =~= Seq::<TokenView>::empty());
        while i < n
            invariant
                i <= n == cs@.len(),
                numbers_fit(cs@.skip(i as int)),
                tokens(self@) == token_views(out@) + tokens(cs@.skip(i as int)),
                cs@ == self@,
            decreases n - i,
        {
            let ghost rest = cs@.skip(i as int);
            let first_digit = '0' <= cs[i] && cs[i] <= '9';
            let mut j = i + 1;
            while j < n && (('0' <= cs[j] && cs[j] <= '9') == first_digit)
                invariant
                    i < j <= n == cs@.len(),
                    rest == cs@.skip(i as int),
                    first_digit == is_digit(rest[0]),
                    forall|k: int| 0 <= k < j - i ==> is_digit(#[trigger] rest[k]) == is_digit(rest[0]),
                decreases n - j,
            {
                j = j + 1;
            }
            proof { lemma_run_len(rest, j - i); }
            assert(rest.take(j - i) == cs@.subrange(i as int, j as int));
            assert(rest.skip(j - i) == cs@.skip(j as int));
            let ghost run = cs@.subrange(i as int, j as int);
            let tok = if first_digit {
                assert(all_digits(run)) by {
                    assert forall|k: int| 0 <= k < run.len() implies is_digit(#[trigger] run[k]) by {
                        assert(run[k] == rest[k]);
                    }
                }
                IntOrString::Int(digits_to_u64(&cs, i, j))
            } else {
                IntOrString::String(string_from_range(&cs, i, j))
            };
            assert(tok@ == run_token(run));
            let ghost before = token_views(out@);
            out.push(tok);
            assert(token_views(out@) == before.push(run_token(run)));
            assert(tokens(rest) == seq![run_token(run)] + tokens(cs@.skip(j as int)));
            i = j;
        }
        assert(tokens(cs@.skip(n as int)) =~= Seq::<TokenView>::empty());
        out
    }
}

fn token_sign(a: &IntOrString, b: &IntOrString) -> (r: i8)
    ensures
        r == token_order(a@, b@),
{
    match (a, b) {
        (IntOrString::Int(x), IntOrString::Int(y)) => if *x < *y { -1 } else if *x == *y { 0 } else { 1 },
        (IntOrString::Int(_), IntOrString::String(_)) => 1,
        (IntOrString::String(_), IntOrString::Int(_)) => -1,
        (IntOrString::String(x), IntOrString::String(y)) => {
            let xs = chars_of(x.as_str());
            let ys = chars_of(y.as_str());
            crate::text::lex_sign(&xs, &ys)
        },
    }
}

fn tokens_sign(a: &Vec<IntOrString>, b: &Vec<IntOrString>) -> (r: i8)
    ensures
        r == tokens_order(token_views(a@), token_views(b@)),
{
    let mut i: usize = 0;
    assert(token_views(a@).skip(0) == token_views(a@));
    assert(token_views(b@).skip(0) == token_views(b@));
    while i < a.len() && i < b.len()
        invariant
            i <= a@.len(),
            i <= b@.len(),
            tokens_order(token_views(a@), token_views(b@)) == tokens_order(
                token_views(a@).skip(i as int),
                token_views(b@).skip(i as int),
            ),
        decreases a.len() - i,
    {
        assert(token_views(a@).skip(i as int).drop_first() == token_views(a@).skip(i + 1));
        assert(token_views(b@).skip(i as int).drop_first() == token_views(b@).skip(i + 1));
        assert(token_views(a@).skip(i as int)[0] == a@[i as int]@);
        assert(token_views(b@).skip(i as int)[0] == b@[i as int]@);
        let t = token_sign(&a[i], &b[i]);
        if t != 0 {
            return t;
        }
        i = i + 1;
    }
    if i == a.len() && i == b.len() {
        0
    } else if i == a.len() {
        -1
    } else {
        1
    }
}

fn sign_to_ordering(s: i8) -> (r: Ordering)
    requires
        -1 <= s <= 1,
    ensures
        ordering_sign(r) == s,
{
    if s < 0 {
        Ordering::Less
    } else if s == 0 {
        Ordering::Equal
    } else {
        Ordering::Greater
    }
}

impl IntOrString {
    /// Numbers by value, texts by characters, and a number above any text.
    pub fn cmp(&self, other: &Self) -> (r: Ordering)
        ensures
            ordering_sign(r) == token_order(self@, other@),
    {
        let s = token_sign(self, other);
        proof { lemma_token_order_basics(self@, other@); }
        sign_to_ordering(s)
    }

    pub fn partial_cmp(&self, other: &Self) -> (r: Option<Ordering>)
        ensures
            r matches Some(o) && ordering_sign(o) == token_order(self@, other@),
    {
        Some(self.cmp(other))
    }
}

/// The order of two version parts: their tokens compared in turn.
pub open spec fn version_string_order(a: Seq<char>, b: Seq<char>) -> int {
    tokens_order(tokens(a), tokens(b))
}

impl VersionString {
    /// Compares the tokens of the two parts in turn; a part whose tokens
    /// run out first is smaller.
    pub fn cmp(&self, other: &Self) -> (r: Ordering)
        requires
            numbers_fit(self@),
            numbers_fit(other@),
        ensures
            ordering_sign(r) == version_string_order(self@, other@),
    {
        let a = self.int_or_string();
        let b = other.int_or_string();
        let s = tokens_sign(&a, &b);
        proof { lemma_tokens_order_basics(tokens(self@), tokens(other@)); }
        sign_to_ordering(s)
    }

    pub fn partial_cmp(&self, other: &Self) -> (r: Option<Ordering>)
        requires
            numbers_fit(self@),
            numbers_fit(other@),
        ensures
            r matches Some(o) && ordering_sign(o) == version_string_order(self@, other@),
    {
        Some(self.cmp(other))
    }

    /// The text of the part.
    pub fn to_string(&self) -> (r: String)
        ensures
            r@ == self@,
    {
        self.0.clone()
    }

    pub fn from(value: String) -> (r: VersionString)
        ensures
            r@ == value@,
    {
        VersionString(value)
    }
}

/// The order of version tokens flips when the arguments swap, gives `-1`,
/// `0` or `1`, and ties only equal tokens.
pub proof fn lemma_token_order_basics(a: TokenView, b: TokenView)
    ensures
        token_order(a, b) == -token_order(b, a),
        -1 <= token_order(a, b) <= 1,
        token_order(a, b) == 0 <==> a == b,
{
    if let (TokenView::Text(x), TokenView::Text(y)) = (a, b) {
        crate::order::lemma_char_seq_order_basics(x, y);
    }
}

/// The order of version tokens is transitive, strictly so when either step
/// is strict.
pub proof fn lemma_token_order_trans(a: TokenView, b: TokenView, c: TokenView)
    requires
        token_order(a, b) <= 0,
        token_order(b, c) <= 0,
    ensures
        token_order(a, c) <= 0,
        token_order(a, b) < 0 || token_order(b, c) < 0 ==> token_order(a, c) < 0,
{
    lemma_token_order_basics(a, b);
    lemma_token_order_basics(b, c);
    lemma_token_order_basics(a, c);
    if let (TokenView::Text(x), TokenView::Text(y), TokenView::Text(z)) = (a, b, c) {
        crate::order::lemma_char_seq_order_trans(x, y, z);
    }
}

/// Comparing token sequences the other way round flips the result, and only
/// equal token sequences compare as equal.
pub proof fn lemma_tokens_order_basics(a: Seq<TokenView>, b: Seq<TokenView>)
    ensures
        tokens_order(a, b) == -tokens_order(b, a),
        -1 <= tokens_order(a, b) <= 1,
        tokens_order(a, b) == 0 <==> a == b,
    decreases a.len(),
{
    if a.len() > 0 && b.len() > 0 {
        lemma_token_order_basics(a[0], b[0]);
        lemma_tokens_order_basics(a.drop_first(), b.drop_first());
        if a[0] == b[0] && a.drop_first() == b.drop_first() {
            assert(a =~= seq![a[0]] + a.drop_first());
            assert(b =~= seq![b[0]] + b.drop_first());
        }
        if a == b {
            assert(a.drop_first() == b.drop_first());
        }
    }
    if a.len() == 0 && b.len() == 0 {
        assert(a =~= b);
    }
}

/// The order of token sequences is transitive.
pub proof fn lemma_tokens_order_trans(a: Seq<TokenView>, b: Seq<TokenView>, c: Seq<TokenView>)
    requires
        tokens_order(a, b) <= 0,
        tokens_order(b, c) <= 0,
    ensures
        tokens_order(a, c) <= 0,
        tokens_order(a, b) < 0 || tokens_order(b, c) < 0 ==> tokens_order(a, c) < 0,
    decreases a.len(),
{
    lemma_tokens_order_basics(a, b);
    lemma_tokens_order_basics(b, c);
    lemma_tokens_order_basics(a, c);
    if a.len() > 0 && b.len() > 0 && c.len() > 0 {
        lemma_token_order_basics(a[0], b[0]);
        lemma_token_order_basics(b[0], c[0]);
        lemma_token_order_basics(a[0], c[0]);
        if token_order(a[0], b[0]) <= 0 && token_order(b[0], c[0]) <= 0 {
            lemma_token_order_trans(a[0], b[0], c[0]);
        }
        if token_order(a[0], b[0]) == 0 && token_order(b[0], c[0]) == 0 {
            lemma_tokens_order_trans(a.drop_first(), b.drop_first(), c.drop_first());
        }
    }
}

/// Version parts are ordered: the order flips when the arguments swap, is
/// transitive, and ties only parts with the same tokens.
pub proof fn lemma_version_string_order(a: Seq<char>, b: Seq<char>, c: Seq<char>)
    ensures
        version_string_order(a, b) == -version_string_order(b, a),
        version_string_order(a, b) == 0 <==> tokens(a) == tokens(b),
        version_string_order(a, b) <= 0 && version_string_order(b, c) <= 0 ==> version_string_order(a, c) <= 0,
{
    lemma_tokens_order_basics(tokens(a), tokens(b));
    if version_string_order(a, b) <= 0 && version_string_order(b, c) <= 0 {
        lemma_tokens_order_trans(tokens(a), tokens(b), tokens(c));
    }
}

/// A version whose patch part may hold letters, such as `1.0.0-rc1`.
#[derive(Debug, Clone)]
pub struct RustVersion {
    major: Option<u32>,
    minor: Option<u32>,
    patch: Option<VersionString>,
}

pub struct LooseView {
    pub major: Option<u32>,
    pub minor: Option<u32>,
    pub patch: Option<Seq<char>>,
}

pub open spec fn opt_part(p: Option<VersionString>) -> Option<Seq<char>> {
    match p {
        Some(v) => Some(v@),
        None => None,
    }
}

impl View for RustVersion {
    type V = LooseView;

    closed spec fn view(&self) -> LooseView {
        LooseView { major: self.major, minor: self.minor, patch: opt_part(self.patch) }
    }
}

/// Every part of `p` holds numbers that fit in a `u64`.
pub open spec fn opt_fits(p: Option<Seq<char>>) -> bool {
    match p {
        Some(s) => numbers_fit(s),
        None => true,
    }
}

/// Orders two optional parts; a missing part is the highest.
pub open spec fn opt_part_order(a: Option<Seq<char>>, b: Option<Seq<char>>) -> int {
    match (a, b) {
        (Some(x), Some(y)) => version_string_order(x, y),
        (Some(_), None) => -1,
        (None, Some(_)) => 1,
        (None, None) => 0,
    }
}

/// Major, minor, then patch; a missing part is the highest.
pub open spec fn loose_order(a: LooseView, b: LooseView) -> int {
    then_order(
        opt_u32_order(a.major, b.major),
        then_order(opt_u32_order(a.minor, b.minor), opt_part_order(a.patch, b.patch)),
    )
}

/// `a == b` holds when every part that `b` gives is the same in `a`.
pub open spec fn given_parts_equal<T>(a: Option<T>, b: Option<T>) -> bool {
    b is None || a == b
}

pub open spec fn loose_matches(a: LooseView, b: LooseView) -> bool {
    &&& given_parts_equal(a.major, b.major)
    &&& given_parts_equal(a.minor, b.minor)
    &&& given_parts_equal(a.patch, b.patch)
}

/// The text of a loose version: `*`, `1`, `1.2` or `1.2.p`.
pub open spec fn loose_text(v: LooseView) -> Seq<char> {
    match v.major {
        None => seq!['*'],
        Some(major) => match v.minor {
            None => decimal(major as nat),
            Some(minor) => match v.patch {
                None => decimal(major as nat) + seq!['.'] + decimal(minor as nat),
                Some(patch) => decimal(major as nat) + seq!['.'] + decimal(minor as nat) + seq!['.'] + patch,
            },
        },
    }
}

/// What `RustVersion::try_from` gives: the first two dot-separated pieces
/// are numbers, the rest is the patch part.
pub open spec fn parse_loose(s: Seq<char>) -> Result<LooseView, ParseIntError> {
    let items = dot_pieces(s);
    match parse_u32_spec(items[0]) {
        Err(e) => Err(e),
        Ok(major) => if items.len() == 1 {
            Ok(LooseView { major: Some(major), minor: None, patch: None })
        } else {
            match parse_u32_spec(items[1]) {
                Err(e) => Err(e),
                Ok(minor) => if items.len() == 2 {
                    Ok(LooseView { major: Some(major), minor: Some(minor), patch: None })
                } else {
                    Ok(LooseView { major: Some(major), minor: Some(minor), patch: Some(items[2]) })
                },
            }
        },
    }
}

fn order_of_parts(a: &Option<VersionString>, b: &Option<VersionString>) -> (r: Ordering)
    requires
        opt_fits(opt_part(*a)),
        opt_fits(opt_part(*b)),
    ensures
        ordering_sign(r) == opt_part_order(opt_part(*a), opt_part(*b)),
{
    match (a, b) {
        (Some(x), Some(y)) => x.cmp(y),
        (Some(_), None) => Ordering::Less,
        (None, Some(_)) => Ordering::Greater,
        (None, None) => Ordering::Equal,
    }
}

fn order_of_numbers(a: Option<u32>, b: Option<u32>) -> (r: Ordering)
    ensures
        ordering_sign(r) == opt_u32_order(a, b),
{
    match (a, b) {
        (Some(x), Some(y)) => if x < y {
            Ordering::Less
        } else if x == y {
            Ordering::Equal
        } else {
            Ordering::Greater
        },
        (Some(_), None) => Ordering::Less,
        (None, Some(_)) => Ordering::Greater,
        (None, None) => Ordering::Equal,
    }
}

fn parts_equal(a: &Option<VersionString>, b: &Option<VersionString>) -> (r: bool)
    ensures
        r == given_parts_equal(opt_part(*a), opt_part(*b)),
{
    match (a, b) {
        (_, None) => true,
        (Some(x), Some(y)) => x.0.eq(&y.0),
        (None, Some(_)) => false,
    }
}

impl RustVersion {
    /// The patch part, if any.
    pub open spec fn patch_fits(&self) -> bool {
        opt_fits(self@.patch)
    }

    /// Major, minor, then patch; a missing part is the highest.
    pub fn cmp(&self, other: &Self) -> (r: Ordering)
        requires
            self.patch_fits(),
            other.patch_fits(),
        ensures
            ordering_sign(r) == loose_order(self@, other@),
    {
        let o = order_of_numbers(self.major, other.major);
        if !matches!(o, Ordering::Equal) {
            return o;
        }
        let o = order_of_numbers(self.minor, other.minor);
        if !matches!(o, Ordering::Equal) {
            return o;
        }
        order_of_parts(&self.patch, &other.patch)
    }

    pub fn partial_cmp(&self, other: &Self) -> (r: Option<Ordering>)
        requires
            self.patch_fits(),
            other.patch_fits(),
        ensures
            r matches Some(o) && ordering_sign(o) == loose_order(self@, other@),
    {
        Some(self.cmp(other))
    }

    /// Whether every part that `other` gives is the same in `self`.
    pub fn eq(&self, other: &Self) -> (r: bool)
        ensures
            r == loose_matches(self@, other@),
    {
        let a = match other.major {
            None => true,
            Some(_) => self.major == other.major,
        };
        let b = match other.minor {
            None => true,
            Some(_) => self.minor == other.minor,
        };
        a && b && parts_equal(&self.patch, &other.patch)
    }

    /// Writes `*`, `1`, `1.2` or `1.2.p`.
    pub fn to_string(&self) -> (r: String)
        ensures
            r@ == loose_text(self@),
    {
        let mut out: Vec<char> = Vec::new();
        match self.major {
            None => {
                out.push('*');
            },
            Some(major) => {
                let d = decimal_chars(major as u64);
                append_chars(&mut out, &d);
                if let Some(minor) = self.minor {
                    out.push('.');
                    let d = decimal_chars(minor as u64);
                    append_chars(&mut out, &d);
                    if let Some(patch) = &self.patch {
                        out.push('.');
                        let d = chars_of(patch.0.as_str());
                        append_chars(&mut out, &d);
                    }
                }
            },
        }
        assert(out@ =~= loose_text(self@));
        string_from(&out)
    }

    /// Reads `major[.minor[.patch]]`; the patch part is kept as text.
    pub fn try_from(value: &str) -> (r: Result<RustVersion, ParseIntError>)
        ensures
            r matches Ok(v) ==> parse_loose(value@) == Ok::<LooseView, ParseIntError>(v@),
            r matches Err(e) ==> parse_loose(value@) == Err::<LooseView, ParseIntError>(e),
    {
        let cs = chars_of(value);
        let n = cs.len();
        assert(cs@.subrange(0, n as int) == value@);
        let (dot1, dot2) = crate::rust_version::split_dots(&cs, n);
        let first_end = match dot1 { Some(i) => i, None => n };
        let major = match parse_u32_range(&cs, 0, first_end) {
            Ok(v) => v,
            Err(e) => return Err(e),
        };
        let i = match dot1 {
            None => {
                return Ok(RustVersion { major: Some(major), minor: None, patch: None });
            },
            Some(i) => i,
        };
        let second_end = match dot2 { Some(j) => j, None => n };
        let minor = match parse_u32_range(&cs, i + 1, second_end) {
            Ok(v) => v,
            Err(e) => return Err(e),
        };
        let j = match dot2 {
            None => {
                return Ok(RustVersion { major: Some(major), minor: Some(minor), patch: None });
            },
            Some(j) => j,
        };
        let patch = VersionString(string_from_range(&cs, j + 1, n));
        Ok(RustVersion { major: Some(major), minor: Some(minor), patch: Some(patch) })
    }
}

/// The order of optional version parts flips when the arguments swap, gives
/// `-1`, `0` or `1`, and is transitive.
pub proof fn lemma_opt_part_order(a: Option<Seq<char>>, b: Option<Seq<char>>, c: Option<Seq<char>>)
    ensures
        opt_part_order(a, b) == -opt_part_order(b, a),
        -1 <= opt_part_order(a, b) <= 1,
        opt_part_order(a, b) <= 0 && opt_part_order(b, c) <= 0 ==> opt_part_order(a, c) <= 0,
{
    if let (Some(x), Some(y)) = (a, b) {
        lemma_tokens_order_basics(tokens(x), tokens(y));
    }
    if let (Some(x), Some(z)) = (a, c) {
        lemma_tokens_order_basics(tokens(x), tokens(z));
    }
    if let (Some(x), Some(y), Some(z)) = (a, b, c) {
        lemma_version_string_order(x, y, z);
    }
}

/// Loose versions are ordered: the order flips when the arguments swap and
/// is transitive.
pub proof fn lemma_loose_order(a: LooseView, b: LooseView, c: LooseView)
    ensures
        loose_order(a, b) == -loose_order(b, a),
        loose_order(a, b) <= 0 && loose_order(b, c) <= 0 ==> loose_order(a, c) <= 0,
{
    lemma_opt_part_order(a.patch, b.patch, c.patch);
    lemma_opt_part_order(b.patch, a.patch, c.patch);
    lemma_opt_part_order(a.patch, c.patch, b.patch);
}

} // verus!
