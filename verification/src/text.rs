//! Character-level helpers shared by the parsers and printers of this crate.
use vstd::prelude::*;

verus! {

/// A decimal digit `0`..=`9`.
pub open spec fn is_digit(c: char) -> bool {
    '0' <= c && c <= '9'
}

pub open spec fn digit_value(c: char) -> nat {
    ((c as int) - ('0' as int)) as nat
}

pub open spec fn all_digits(s: Seq<char>) -> bool {
    forall|i: int| 0 <= i < s.len() ==> is_digit(#[trigger] s[i])
}

/// The number that a run of decimal digits denotes.
pub open spec fn digits_value(s: Seq<char>) -> nat
    decreases s.len(),
{
    if s.len() == 0 {
        0
    } else {
        digits_value(s.drop_last()) * 10 + digit_value(s.last())
    }
}

/// Why text is not an unsigned decimal number.
#[derive(Debug, Clone, Copy, PartialEq, Eq, Structural)]
pub enum ParseIntError {
    /// The text is empty.
    Empty,
    /// A character is not a digit, or a lone sign was given.
    InvalidDigit,
    /// The number does not fit the target type.
    PosOverflow,
}

/// Scans `s` from the left: the first character that is not a digit gives
/// `InvalidDigit`, the first digit that makes the running value pass `max`
/// gives `PosOverflow`.
pub open spec fn scan_digits(s: Seq<char>, max: nat) -> Result<nat, ParseIntError>
    decreases s.len(),
{
    if s.len() == 0 {
        Ok(0)
    } else {
        match scan_digits(s.drop_last(), max) {
            Err(e) => Err(e),
            Ok(v) => if !is_digit(s.last()) {
                Err(ParseIntError::InvalidDigit)
            } else if v * 10 + digit_value(s.last()) > max {
                Err(ParseIntError::PosOverflow)
            } else {
                Ok(v * 10 + digit_value(s.last()))
            },
        }
    }
}

/// How std reads an unsigned decimal number: an optional leading `+`,
/// then at least one digit.
pub open spec fn parse_unsigned(s: Seq<char>, max: nat) -> Result<nat, ParseIntError> {
    if s.len() == 0 {
        Err(ParseIntError::Empty)
    } else if s[0] == '+' {
        if s.len() == 1 {
            Err(ParseIntError::InvalidDigit)
        } else {
            scan_digits(s.drop_first(), max)
        }
    } else {
        scan_digits(s, max)
    }
}

pub open spec fn parse_u32_spec(s: Seq<char>) -> Result<u32, ParseIntError> {
    match parse_unsigned(s, u32::MAX as nat) {
        Ok(v) => Ok(v as u32),
        Err(e) => Err(e),
    }
}

/// Scanning a digit run with a bound succeeds exactly when the run is all
/// digits and worth no more than the bound, and then gives its value.
pub proof fn lemma_scan_bound(s: Seq<char>, max: nat)
    ensures
        scan_digits(s, max) matches Ok(v) ==> v <= max && v == digits_value(s) && all_digits(s),
        scan_digits(s, max) is Ok <== all_digits(s) && digits_value(s) <= max,
    decreases s.len(),
{
    if s.len() > 0 {
        lemma_scan_bound(s.drop_last(), max);
        if all_digits(s) {
            lemma_digits_value_mono(s);
            assert(all_digits(s.drop_last()));
        }
        if scan_digits(s, max) is Ok {
            assert forall|i: int| 0 <= i < s.len() implies is_digit(#[trigger] s[i]) by {
                if i < s.len() - 1 {
                    assert(s[i] == s.drop_last()[i]);
                }
            }
        }
    }
}

/// Dropping the last digit of a digit run makes it worth no more.
pub proof fn lemma_digits_value_mono(s: Seq<char>)
    requires
        s.len() > 0,
        all_digits(s),
    ensures
        digits_value(s.drop_last()) <= digits_value(s),
{
    assert(is_digit(s[s.len() - 1]));
}

/// Reads an unsigned decimal `u32` as `str::parse::<u32>` does.
pub fn parse_u32(s: &str) -> (r: Result<u32, ParseIntError>)
    ensures
        r == parse_u32_spec(s@),
{
    let cs = chars_of(s);
    assert(cs@.subrange(0, cs@.len() as int) == cs@);
    parse_u32_range(&cs, 0, cs.len())
}

/// Reads `cs[from..to]` as `str::parse::<u32>` does.
pub fn parse_u32_range(cs: &Vec<char>, from: usize, to: usize) -> (r: Result<u32, ParseIntError>)
    requires
        from <= to <= cs@.len(),
    ensures
        r == parse_u32_spec(cs@.subrange(from as int, to as int)),
{
    let ghost t = cs@.subrange(from as int, to as int);
    if from == to {
        return Err(ParseIntError::Empty);
    }
    let mut i: usize = from;
    if cs[from] == '+' {
        if to - from == 1 {
            return Err(ParseIntError::InvalidDigit);
        }
        i = from + 1;
    }
    assert(t[0] == cs@[from as int]);
    let ghost start: int = i - from;
    let mut v: u32 = 0;
    assert(t.subrange(start, start) =~= cs@.subrange(i as int, i as int));
    while i < to
        invariant
            start == 0 || start == 1,
            from + start <= i <= to <= cs@.len(),
            t == cs@.subrange(from as int, to as int),
            t.len() > 0,
            start == (if t[0] == '+' { 1int } else { 0int }),
            t[0] == '+' ==> t.len() > 1,
            scan_digits(t.subrange(start, i - from), u32::MAX as nat) == Ok::<nat, ParseIntError>(v as nat),
        decreases to - i,
    {
        let c = cs[i];
        let ghost k: int = i - from;
        let ghost pre = t.subrange(start, k);
        let ghost next = t.subrange(start, k + 1);
        assert(next.drop_last() == pre);
        assert(next.last() == c);
        assert(t.subrange(start, t.len() as int).take((k - start) + 1) == next);
        if !('0' <= c && c <= '9') {
            proof {
                lemma_scan_err_extends(t.subrange(start, t.len() as int), (k - start) as nat + 1, u32::MAX as nat);
                lemma_parse_digits_part(t, start);
            }
            return Err(ParseIntError::InvalidDigit);
        }
        let d: u32 = (c as u32) - 48;
        assert(d == digit_value(c));
        if v > 429496729 || (v == 429496729 && d > 5) {
            proof {
                lemma_scan_err_extends(t.subrange(start, t.len() as int), (k - start) as nat + 1, u32::MAX as nat);
                lemma_parse_digits_part(t, start);
            }
            return Err(ParseIntError::PosOverflow);
        }
        v = v * 10 + d;
        i = i + 1;
    }
    proof { lemma_parse_digits_part(t, start); }
    assert(t.subrange(start, t.len() as int) == t.subrange(start, i - from));
    Ok(v)
}

proof fn lemma_parse_digits_part(s: Seq<char>, start: int)
    requires
        s.len() > 0,
        start == (if s[0] == '+' { 1int } else { 0int }),
        s[0] == '+' ==> s.len() > 1,
    ensures
        parse_unsigned(s, u32::MAX as nat) == scan_digits(s.subrange(start, s.len() as int), u32::MAX as nat),
{
    if start == 0 {
        assert(s.subrange(0, s.len() as int) == s);
    } else {
        assert(s.subrange(1, s.len() as int) == s.drop_first());
    }
}

/// Once a prefix fails to scan, so does every extension of it.
pub proof fn lemma_scan_err_extends(s: Seq<char>, k: nat, max: nat)
    requires
        0 < k <= s.len(),
        scan_digits(s.take(k as int), max) is Err,
    ensures
        scan_digits(s, max) == scan_digits(s.take(k as int), max),
    decreases s.len(),
{
    if k < s.len() {
        assert(s.drop_last().take(k as int) == s.take(k as int));
        lemma_scan_err_extends(s.drop_last(), k, max);
    } else {
        assert(s.take(k as int) == s);
    }
}

/// The decimal digit for `d < 10`.
pub open spec fn digit_char(d: nat) -> char {
    ((d + ('0' as int)) as u32) as char
}

/// The canonical decimal spelling of `n`: no sign, no leading zeros.
pub open spec fn decimal(n: nat) -> Seq<char>
    decreases n,
{
    if n < 10 {
        seq![digit_char(n)]
    } else {
        decimal(n / 10).push(digit_char(n % 10))
    }
}

/// The decimal spelling of a number is a non-empty digit run worth the
/// number, without a leading `+`.
pub proof fn lemma_decimal(n: nat)
    ensures
        decimal(n).len() > 0,
        all_digits(decimal(n)),
        digits_value(decimal(n)) == n,
        decimal(n)[0] != '+',
    decreases n,
{
    if n >= 10 {
        lemma_decimal(n / 10);
        let s = decimal(n);
        assert(s.drop_last() == decimal(n / 10));
        assert(digit_value(digit_char(n % 10)) == n % 10);
        assert((n / 10) * 10 + n % 10 == n) by (nonlinear_arith);
        assert(s.last() == digit_char(n % 10));
        assert(digits_value(s) == digits_value(decimal(n / 10)) * 10 + digit_value(digit_char(n % 10)));
    } else {
        let s = decimal(n);
        assert(s.drop_last() =~= Seq::<char>::empty());
        assert(digit_value(digit_char(n)) == n);
        assert(digits_value(Seq::<char>::empty()) == 0);
        assert(s.last() == digit_char(n));
        assert(digits_value(s) == digits_value(s.drop_last()) * 10 + digit_value(s.last()));
        assert forall|i: int| 0 <= i < s.len() implies is_digit(#[trigger] s[i]) by {
            if i < s.len() - 1 {
                assert(s[i] == decimal(n / 10)[i]);
            }
        }
    }
}

/// Reading back the decimal spelling of a `u32` gives the number.
pub proof fn lemma_parse_decimal(n: u32)
    ensures
        parse_u32_spec(decimal(n as nat)) == Ok::<u32, ParseIntError>(n),
{
    lemma_decimal(n as nat);
    lemma_scan_bound(decimal(n as nat), u32::MAX as nat);
}

/// The decimal spelling of a number, as characters.
pub fn decimal_chars(n: u64) -> (r: Vec<char>)
    ensures
        r@ == decimal(n as nat),
    decreases n,
{
    let d = (n % 10) as u32;
    let c = char_from_digit(d);
    if n < 10 {
        let mut r: Vec<char> = Vec::new();
        r.push(c);
        assert(r@ == seq![c]);
        r
    } else {
        let mut r = decimal_chars(n / 10);
        r.push(c);
        r
    }
}

fn char_from_digit(d: u32) -> (c: char)
    requires
        d < 10,
    ensures
        c == digit_char(d as nat),
{
    if d == 0 { '0' } else if d == 1 { '1' } else if d == 2 { '2' } else if d == 3 { '3' }
    else if d == 4 { '4' } else if d == 5 { '5' } else if d == 6 { '6' } else if d == 7 { '7' }
    else if d == 8 { '8' } else { '9' }
}

/// The value of a run of digits that fits in a `u64`.
pub fn digits_to_u64(cs: &Vec<char>, from: usize, to: usize) -> (r: u64)
    requires
        from <= to <= cs@.len(),
        all_digits(cs@.subrange(from as int, to as int)),
        digits_value(cs@.subrange(from as int, to as int)) <= u64::MAX,
    ensures
        r == digits_value(cs@.subrange(from as int, to as int)),
{
    let mut i = from;
    let mut v: u64 = 0;
    while i < to
        invariant
            from <= i <= to <= cs@.len(),
            all_digits(cs@.subrange(from as int, to as int)),
            digits_value(cs@.subrange(from as int, to as int)) <= u64::MAX,
            v == digits_value(cs@.subrange(from as int, i as int)),
        decreases to - i,
    {
        let ghost next = cs@.subrange(from as int, i + 1);
        assert(next.drop_last() == cs@.subrange(from as int, i as int));
        assert(cs@[i as int] == cs@.subrange(from as int, to as int)[i - from]);
        proof { lemma_digits_prefix(cs@.subrange(from as int, to as int), (i - from) + 1); }
        assert(cs@.subrange(from as int, to as int).take((i - from) + 1) == next);
        v = v * 10 + ((cs[i] as u32) - 48) as u64;
        i = i + 1;
    }
    v
}

/// A prefix of a digit run is worth no more than the run.
pub proof fn lemma_digits_prefix(s: Seq<char>, k: int)
    requires
        0 <= k <= s.len(),
        all_digits(s),
    ensures
        digits_value(s.take(k)) <= digits_value(s),
    decreases s.len(),
{
    if k < s.len() {
        assert(s.drop_last().take(k) == s.take(k));
        assert(all_digits(s.drop_last()));
        lemma_digits_prefix(s.drop_last(), k);
        lemma_digits_value_mono(s);
    } else {
        assert(s.take(k) == s);
    }
}

/// The sign of `char_seq_order(a, b)`.
pub fn lex_sign(a: &Vec<char>, b: &Vec<char>) -> (r: i8)
    ensures
        r == crate::order::char_seq_order(a@, b@),
{
    let mut i: usize = 0;
    assert(a@.skip(0) == a@);
    assert(b@.skip(0) == b@);
    while i < a.len() && i < b.len()
        invariant
            i <= a@.len(),
            i <= b@.len(),
            crate::order::char_seq_order(a@, b@) == crate::order::char_seq_order(a@.skip(i as int), b@.skip(i as int)),
        decreases a.len() - i,
    {
        assert(a@.skip(i as int).drop_first() == a@.skip(i + 1));
        assert(b@.skip(i as int).drop_first() == b@.skip(i + 1));
        if a[i] < b[i] {
            return -1;
        } else if a[i] > b[i] {
            return 1;
        }
        i = i + 1;
    }
    if i == a.len() && i == b.len() {
        0
    } else if i == a.len() {
        -1
    } else {
        1
    }
}

/// The string made of `cs[from..to]`.
pub fn string_from_range(cs: &Vec<char>, from: usize, to: usize) -> (r: String)
    requires
        from <= to <= cs@.len(),
    ensures
        r@ == cs@.subrange(from as int, to as int),
{
    let mut r = String::new();
    let mut i: usize = from;
    while i < to
        invariant
            from <= i <= to <= cs@.len(),
            r@ == cs@.subrange(from as int, i as int),
        decreases to - i,
    {
        push_char(&mut r, cs[i]);
        assert(cs@.subrange(from as int, i + 1) == cs@.subrange(from as int, i as int).push(cs@[i as int]));
        i = i + 1;
    }
    r
}

/// The first position of `c` in `s`.
pub open spec fn find_char(s: Seq<char>, c: char) -> Option<int>
    decreases s.len(),
{
    if s.len() == 0 {
        None
    } else if s[0] == c {
        Some(0)
    } else {
        match find_char(s.drop_first(), c) {
            Some(i) => Some(i + 1),
            None => None,
        }
    }
}

/// `find_char` gives the first position of the character, or nothing when
/// the text does not hold it.
pub proof fn lemma_find_char(s: Seq<char>, c: char)
    ensures
        find_char(s, c) matches Some(i) ==> 0 <= i < s.len() && s[i] == c && !s.take(i).contains(c),
        find_char(s, c) is None ==> !s.contains(c),
    decreases s.len(),
{
    if s.len() > 0 {
        lemma_find_char(s.drop_first(), c);
        if let Some(i) = find_char(s, c) {
            if i > 0 {
                assert forall|j: int| 0 <= j < i implies s.take(i)[j] != c by {
                    if j > 0 {
                        assert(s.take(i)[j] == s.drop_first().take(i - 1)[j - 1]);
                    }
                }
            }
        } else {
            assert forall|j: int| 0 <= j < s.len() implies s[j] != c by {
                if j > 0 {
                    assert(s[j] == s.drop_first()[j - 1]);
                }
            }
        }
    }
}

/// `find_char` on a sequence that starts with a run free of `c`.
pub proof fn lemma_find_char_concat(a: Seq<char>, b: Seq<char>, c: char)
    requires
        !a.contains(c),
    ensures
        find_char(a + b, c) == (match find_char(b, c) {
            Some(i) => Some(i + a.len()),
            None => None::<int>,
        }),
    decreases a.len(),
{
    if a.len() > 0 {
        assert((a + b).drop_first() == a.drop_first() + b);
        assert(!a.drop_first().contains(c)) by {
            if a.drop_first().contains(c) {
                let j = choose|j: int| 0 <= j < a.drop_first().len() && a.drop_first()[j] == c;
                assert(a[j + 1] == c);
            }
        }
        assert((a + b)[0] == a[0]);
        assert(a[0] != c) by { if a[0] == c { assert(a.contains(c)); } }
        lemma_find_char_concat(a.drop_first(), b, c);
    } else {
        assert(a + b == b);
    }
}

/// The first position of `c` in `cs[from..to]`, counted from `from`.
pub fn find_char_in(cs: &Vec<char>, from: usize, to: usize, c: char) -> (r: Option<usize>)
    requires
        from <= to <= cs@.len(),
    ensures
        r matches Some(i) ==> from <= i < to && find_char(cs@.subrange(from as int, to as int), c) == Some(i - from),
        r is None ==> find_char(cs@.subrange(from as int, to as int), c) is None,
{
    let mut i = from;
    while i < to
        invariant
            from <= i <= to <= cs@.len(),
            find_char(cs@.subrange(from as int, to as int), c) == (match find_char(cs@.subrange(i as int, to as int), c) {
                Some(j) => Some(j + (i - from)),
                None => None::<int>,
            }),
        decreases to - i,
    {
        assert(cs@.subrange(i as int, to as int).drop_first() == cs@.subrange(i + 1, to as int));
        if cs[i] == c {
            return Some(i);
        }
        i = i + 1;
    }
    None
}

/// Appends all of `src` to `dst`.
pub fn append_chars(dst: &mut Vec<char>, src: &Vec<char>)
    ensures
        final(dst)@ == old(dst)@ + src@,
{
    let mut i: usize = 0;
    while i < src.len()
        invariant
            i <= src@.len(),
            dst@ == old(dst)@ + src@.take(i as int),
        decreases src.len() - i,
    {
        dst.push(src[i]);
        assert(src@.take(i + 1) == src@.take(i as int).push(src@[i as int]));
        i = i + 1;
    }
    assert(src@.take(src@.len() as int) == src@);
}

/// A run of digits holds no character that is not a digit.
pub proof fn lemma_digits_exclude(s: Seq<char>, c: char)
    requires
        all_digits(s),
        !is_digit(c),
    ensures
        !s.contains(c),
{
}

/// The items separated by `sep`.
pub open spec fn join_with(items: Seq<Seq<char>>, sep: Seq<char>) -> Seq<char>
    decreases items.len(),
{
    if items.len() == 0 {
        seq![]
    } else if items.len() == 1 {
        items[0]
    } else {
        join_with(items.drop_last(), sep) + sep + items.last()
    }
}

pub open spec fn views_of(items: Seq<Vec<char>>) -> Seq<Seq<char>> {
    items.map_values(|v: Vec<char>| v@)
}

/// The items separated by `sep`.
pub fn join_chars(items: &Vec<Vec<char>>, sep: &Vec<char>) -> (r: Vec<char>)
    ensures
        r@ == join_with(views_of(items@), sep@),
{
    let mut out: Vec<char> = Vec::new();
    let mut i: usize = 0;
    while i < items.len()
        invariant
            i <= items@.len(),
            out@ == join_with(views_of(items@).take(i as int), sep@),
        decreases items.len() - i,
    {
        assert(views_of(items@).take(i + 1).drop_last() == views_of(items@).take(i as int));
        if i > 0 {
            append_chars(&mut out, sep);
        } else {
            assert(views_of(items@).take(0) =~= Seq::<Seq<char>>::empty());
        }
        append_chars(&mut out, &items[i]);
        i = i + 1;
    }
    assert(views_of(items@).take(items@.len() as int) == views_of(items@));
    out
}

/// Appends the characters of `s` to `out`.
pub fn push_str(out: &mut Vec<char>, s: &str)
    ensures
        final(out)@ == old(out)@ + s@,
{
    let cs = chars_of(s);
    append_chars(out, &cs);
}

/// An owned copy of `s`.
pub fn owned(s: &str) -> (r: String)
    ensures
        r@ == s@,
{
    let cs = chars_of(s);
    string_from(&cs)
}

/// Whether two strings hold the same characters.
pub fn same_text(a: &str, b: &str) -> (r: bool)
    ensures
        r == (a@ == b@),
{
    let x = chars_of(a);
    let y = chars_of(b);
    if x.len() != y.len() {
        return false;
    }
    let mut i: usize = 0;
    while i < x.len()
        invariant
            i <= x@.len() == y@.len(),
            x@ == a@,
            y@ == b@,
            x@.take(i as int) == y@.take(i as int),
        decreases x.len() - i,
    {
        if x[i] != y[i] {
            proof {
                if x@ == y@ {
                    assert(x@[i as int] == y@[i as int]);
                }
            }
            return false;
        }
        assert(x@.take(i + 1) == x@.take(i as int).push(x@[i as int]));
        assert(y@.take(i + 1) == y@.take(i as int).push(y@[i as int]));
        i = i + 1;
    }
    assert(x@.take(x@.len() as int) == x@);
    assert(y@.take(y@.len() as int) == y@);
    true
}

/// The characters of a string slice.
pub fn chars_of(s: &str) -> (r: Vec<char>)
    ensures
        r@ == s@,
{
    let mut r: Vec<char> = Vec::new();
    for c in it: s.chars()
        invariant
            r@ == it.seq().take(it.index() as int),
            it.seq() == s@,
    {
        r.push(c);
    }
    r
}

#[verifier::external_body]
fn push_char(s: &mut String, c: char)
    ensures
        final(s)@ == old(s)@.push(c),
{
    s.push(c);
}

/// The string made of the given characters.
pub fn string_from(cs: &Vec<char>) -> (r: String)
    ensures
        r@ == cs@,
{
    let mut r = String::new();
    let mut i: usize = 0;
    while i < cs.len()
        invariant
            i <= cs@.len(),
            r@ == cs@.take(i as int),
        decreases cs.len() - i,
    {
        push_char(&mut r, cs[i]);
        assert(cs@.take(i + 1) == cs@.take(i as int).push(cs@[i as int]));
        i = i + 1;
    }
    assert(cs@.take(cs@.len() as int) == cs@);
    r
}

/// The number of bytes that the UTF-8 encoding of `c` takes.
pub fn char_width(c: char) -> (r: usize)
    ensures
        r == vstd::utf8::encode_utf8(seq![c]).len(),
        1 <= r <= 4,
{
    let v = c as u32;
    assert(vstd::utf8::encode_utf8(seq![c]) == vstd::utf8::encode_scalar(c as u32) + vstd::utf8::encode_utf8(
        seq![c].drop_first(),
    ));
    assert(seq![c].drop_first() =~= Seq::<char>::empty());
    assert(vstd::utf8::encode_utf8(Seq::<char>::empty()) =~= Seq::<u8>::empty());
    if v <= 0x7F {
        1
    } else if v <= 0x7FF {
        2
    } else if v <= 0xFFFF {
        proof { vstd::utf8::char_is_scalar(c); }
        3
    } else {
        4
    }
}

/// Encoding one more character adds its bytes at the end.
pub proof fn lemma_encode_push(a: Seq<char>, c: char)
    ensures
        vstd::utf8::encode_utf8(a.push(c)) == vstd::utf8::encode_utf8(a) + vstd::utf8::encode_utf8(seq![c]),
    decreases a.len(),
{
    if a.len() == 0 {
        assert(a.push(c) =~= seq![c]);
        assert(vstd::utf8::encode_utf8(a) =~= Seq::<u8>::empty());
    } else {
        lemma_encode_push(a.drop_first(), c);
        assert(a.push(c).drop_first() =~= a.drop_first().push(c));
        assert(a.push(c)[0] == a[0]);
    }
}

} // verus!
