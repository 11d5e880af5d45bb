//! The documentation of the keys a manifest may hold: a schema of elements,
//! each with its possible types, its description and the descriptions of
//! its values, and the lookup of the text to show for a path of keys.
use std::sync::Arc;
use vstd::prelude::*;
use crate::text::{chars_of, same_text, string_from_range};
use crate::manifest::arc_clone;

verus! {

// ---------------------------------------------------------------------------
// The schema as it is written.

/// An element of the schema: its description, what it holds, its possible
/// values and its default.
pub struct Element {
    pub description: Option<String>,
    pub contents: ElementKind,
    pub values: Option<Values>,
    pub default: Option<String>,
}

/// The possible values of an element: their names alone, or each name with
/// its description.
pub enum Values {
    NoDetail(Vec<String>),
    Detail(Vec<(String, String)>),
}

/// What an element holds: type names separated by `|`, or elements by key
/// (a key that starts with `$` is a pattern).
pub enum ElementKind {
    Id(String),
    Complex(Vec<(String, Element)>),
}

/// The whole schema: the top-level elements and the named components that
/// type names refer to.
pub struct Data {
    pub schema: Vec<(String, Element)>,
    pub components: Vec<(String, Element)>,
}

// ---------------------------------------------------------------------------
// The schema as it is looked up.

/// An element read for lookup.
pub struct Val {
    pub ty: Vec<Types>,
    pub default: Option<String>,
    pub detail: Option<String>,
    pub values: Option<Vec<(String, Option<String>)>>,
}

/// A type an element may have.
pub enum Types {
    Table(Parsed),
    Element(Arc<Val>),
    String,
    Bool,
    Object,
    Array(Box<Types>),
}

/// A key of the schema: a name, or a regular expression that names match.
pub enum SchemaKey {
    Exact(String),
    Pattern(String),
}

/// Elements by key, in the order of the schema.
pub struct Parsed {
    pub entries: Vec<(SchemaKey, Arc<Val>)>,
}

// ---------------------------------------------------------------------------
// Regular expressions.

/// Whether `pattern` compiles as a regular expression.
pub uninterp spec fn regex_compiles(pattern: Seq<char>) -> bool;

/// Whether `text` holds a match of `pattern`, when the pattern compiles.
pub uninterp spec fn regex_finds(pattern: Seq<char>, text: Seq<char>) -> bool;

/// Compiles `pattern` with `regex::bytes::Regex::new`; when it compiles,
/// tests `text` with `Regex::is_match`, which looks for a match anywhere in
/// the bytes of `text`. Nothing when the pattern does not compile.
#[verifier::external_body]
fn regex_match(pattern: &str, text: &str) -> (r: Option<bool>)
    ensures
        r is Some <==> regex_compiles(pattern@),
        r matches Some(b) ==> b == regex_finds(pattern@, text@),
{
    match regex::bytes::Regex::new(pattern) {
        Ok(re) => Some(re.is_match(text.as_bytes())),
        Err(_) => None,
    }
}

/// Whether `pattern` compiles, with `regex::bytes::Regex::new`.
#[verifier::external_body]
fn regex_valid(pattern: &str) -> (r: bool)
    ensures
        r == regex_compiles(pattern@),
{
    regex::bytes::Regex::new(pattern).is_ok()
}

/// Whether a key of the schema stands for `s`: an exact name equal to it,
/// or a compiling pattern with a match in it.
pub open spec fn key_matches(k: SchemaKey, s: Seq<char>) -> bool {
    match k {
        SchemaKey::Exact(x) => x@ == s,
        SchemaKey::Pattern(p) => regex_compiles(p@) && regex_finds(p@, s),
    }
}

impl SchemaKey {
    /// Whether the key stands for `key` (see `key_matches`).
    pub fn is_match(&self, key: &str) -> (r: bool)
        ensures
            r == key_matches(*self, key@),
    {
        match self {
            SchemaKey::Exact(k) => same_text(k.as_str(), key),
            SchemaKey::Pattern(p) => match regex_match(p.as_str(), key) {
                Some(b) => b,
                None => false,
            },
        }
    }
}

// ---------------------------------------------------------------------------
// Lookup.

pub open spec fn opt_view(s: Option<String>) -> Option<Seq<char>> {
    match s {
        Some(x) => Some(x@),
        None => None,
    }
}

pub open spec fn key_texts(keys: Seq<String>) -> Seq<Seq<char>> {
    keys.map_values(|k: String| k@)
}

/// The first entry from `i` on whose key stands for `s`.
pub open spec fn first_matching(entries: Seq<(SchemaKey, Arc<Val>)>, i: nat, s: Seq<char>) -> Option<int>
    decreases entries.len() - i,
{
    if i >= entries.len() {
        None
    } else if key_matches(entries[i as int].0, s) {
        Some(i as int)
    } else {
        first_matching(entries, i + 1, s)
    }
}

/// The first matching entry lies in the list, and its key stands for the text.
pub proof fn lemma_first_matching_in(entries: Seq<(SchemaKey, Arc<Val>)>, i: nat, s: Seq<char>)
    ensures
        first_matching(entries, i, s) matches Some(j) ==> i <= j < entries.len() && key_matches(entries[j].0, s),
    decreases entries.len() - i,
{
    if i < entries.len() {
        lemma_first_matching_in(entries, i + 1, s);
    }
}

fn first_match_index(entries: &Vec<(SchemaKey, Arc<Val>)>, key: &str) -> (r: Option<usize>)
    ensures
        r matches Some(k) ==> k < entries@.len() && first_matching(entries@, 0, key@) == Some(k as int),
        r is None ==> first_matching(entries@, 0, key@) is None,
{
    proof { lemma_first_matching_in(entries@, 0, key@); }
    let mut j: usize = 0;
    while j < entries.len()
        invariant
            j <= entries@.len(),
            first_matching(entries@, 0, key@) == first_matching(entries@, j as nat, key@),
        decreases entries.len() - j,
    {
        if entries[j].0.is_match(key) {
            return Some(j);
        }
        j = j + 1;
    }
    None
}

/// The description of the value `key`: the last entry named so (the one a
/// map keeps), when it has a description.
pub open spec fn value_doc(vals: Seq<(String, Option<String>)>, key: Seq<char>) -> Option<Seq<char>>
    decreases vals.len(),
{
    if vals.len() == 0 {
        None
    } else if vals.last().0@ == key {
        opt_view(vals.last().1)
    } else {
        value_doc(vals.drop_last(), key)
    }
}

pub open spec fn values_doc(vals: Option<Vec<(String, Option<String>)>>, key: Seq<char>) -> Option<Seq<char>> {
    match vals {
        Some(v) => value_doc(v@, key),
        None => None,
    }
}

/// The description at the end of a path: an element's own, else the first
/// found among its types.
pub open spec fn end_doc(t: Types) -> Option<Seq<char>>
    decreases t, 0nat,
{
    match t {
        Types::Element(v) => match v.detail {
            Some(d) => Some(d@),
            None => types_end_doc(v.ty@, 0),
        },
        Types::Array(b) => end_doc(*b),
        _ => None,
    }
}

pub open spec fn types_end_doc(ts: Seq<Types>, i: nat) -> Option<Seq<char>>
    decreases ts, ts.len() - i,
{
    if i >= ts.len() {
        None
    } else {
        match end_doc(ts[i as int]) {
            Some(d) => Some(d),
            None => types_end_doc(ts, i + 1),
        }
    }
}

/// The description of the value `key` at the end of a path: an element's
/// own, else the first found among its types.
pub open spec fn end_doc_value(t: Types, key: Seq<char>) -> Option<Seq<char>>
    decreases t, 0nat,
{
    match t {
        Types::Element(v) => match values_doc(v.values, key) {
            Some(d) => Some(d),
            None => types_end_doc_value(v.ty@, 0, key),
        },
        Types::Array(b) => end_doc_value(*b, key),
        _ => None,
    }
}

pub open spec fn types_end_doc_value(ts: Seq<Types>, i: nat, key: Seq<char>) -> Option<Seq<char>>
    decreases ts, ts.len() - i,
{
    if i >= ts.len() {
        None
    } else {
        match end_doc_value(ts[i as int], key) {
            Some(d) => Some(d),
            None => types_end_doc_value(ts, i + 1, key),
        }
    }
}

/// The description for the path `keys` from `index` on, read in the
/// elements by key: at the last key, the element's description; at the key
/// before a value (when `is_value`), the description of that value; else
/// the first description found further down its types.
pub open spec fn detail(p: Parsed, keys: Seq<Seq<char>>, index: nat, is_value: bool) -> Option<Seq<char>>
    decreases p, 0nat,
{
    if index >= keys.len() {
        None
    } else {
        match first_matching(p.entries@, 0, keys[index as int]) {
            None => None,
            Some(j) => {
                let item = p.entries@[j].1;
                proof {
                    lemma_first_matching_in(p.entries@, 0, keys[index as int]);
                    assert(decreases_to!(p => p.entries));
                    assert(decreases_to!(p.entries => p.entries@));
                    assert(decreases_to!(p.entries@ => p.entries@[j]));
                    assert(decreases_to!(p.entries@[j] => p.entries@[j].1));
                    assert(decreases_to!(p.entries@[j].1 => item.ty));
                    assert(decreases_to!(item.ty => item.ty@));
                }
                if index == keys.len() - 1 {
                    match item.detail {
                        Some(d) => Some(d@),
                        None => types_end_doc(item.ty@, 0),
                    }
                } else if index + 1 == keys.len() - 1 && is_value {
                    match values_doc(item.values, keys[index + 1int]) {
                        Some(d) => Some(d),
                        None => types_end_doc_value(item.ty@, 0, keys[index + 1int]),
                    }
                } else {
                    types_search(item.ty@, 0, keys, index + 1, is_value)
                }
            },
        }
    }
}

/// The description for the path `keys` from `index` on, inside a type.
pub open spec fn search(t: Types, keys: Seq<Seq<char>>, index: nat, is_value: bool) -> Option<Seq<char>>
    decreases t, 0nat,
{
    match t {
        Types::Table(p) => detail(p, keys, index, is_value),
        Types::Array(b) => search(*b, keys, index, is_value),
        Types::Element(v) => types_search(v.ty@, 0, keys, index, is_value),
        _ => None,
    }
}

pub open spec fn types_search(ts: Seq<Types>, i: nat, keys: Seq<Seq<char>>, index: nat, is_value: bool) -> Option<Seq<char>>
    decreases ts, ts.len() - i,
{
    if i >= ts.len() {
        None
    } else {
        match search(ts[i as int], keys, index, is_value) {
            Some(d) => Some(d),
            None => types_search(ts, i + 1, keys, index, is_value),
        }
    }
}

fn lookup_value_doc(vals: &Option<Vec<(String, Option<String>)>>, key: &str) -> (r: Option<String>)
    ensures
        opt_view(r) == values_doc(*vals, key@),
{
    match vals {
        None => None,
        Some(v) => {
            let mut i: usize = v.len();
            assert(v@.take(i as int) == v@);
            while i > 0
                invariant
                    i <= v@.len(),
                    *vals matches Some(w) && w == v,
                    values_doc(*vals, key@) == value_doc(v@.take(i as int), key@),
                decreases i,
            {
                assert(v@.take(i as int).drop_last() == v@.take(i - 1));
                assert(v@.take(i as int).last() == v@[i - 1]);
                if same_text(v[i - 1].0.as_str(), key) {
                    return v[i - 1].1.clone();
                }
                i = i - 1;
            }
            None
        },
    }
}

impl Types {
    /// The description for `keys` from `index` on, inside this type.
    pub fn search(&self, keys: &[String], index: usize, is_value: bool) -> (r: Option<String>)
        ensures
            opt_view(r) == search(*self, key_texts(keys@), index as nat, is_value),
        decreases *self, 0nat,
    {
        match self {
            Types::Table(parsed) => parsed.get_detail(keys, index, is_value),
            Types::Array(types) => types.search(keys, index, is_value),
            Types::Element(val) => {
                let ty = &val.ty;
                let mut i: usize = 0;
                while i < ty.len()
                    invariant
                        i <= ty@.len(),
                        *self matches Types::Element(w) && w.ty == ty,
                        search(*self, key_texts(keys@), index as nat, is_value) == types_search(
                            ty@,
                            i as nat,
                            key_texts(keys@),
                            index as nat,
                            is_value,
                        ),
                    decreases ty.len() - i,
                {
                    let found = ty[i].search(keys, index, is_value);
                    if found.is_some() {
                        return found;
                    }
                    i = i + 1;
                }
                None
            },
            _ => None,
        }
    }

    /// The description at the end of a path (see `end_doc`).
    pub fn end_doc(&self) -> (r: Option<String>)
        ensures
            opt_view(r) == end_doc(*self),
        decreases *self, 0nat,
    {
        match self {
            Types::Element(val) => match &val.detail {
                Some(d) => Some(d.clone()),
                None => {
                    let ty = &val.ty;
                    let mut i: usize = 0;
                    while i < ty.len()
                        invariant
                            i <= ty@.len(),
                            *self matches Types::Element(w) && w.ty == ty && w.detail is None,
                            end_doc(*self) == types_end_doc(ty@, i as nat),
                        decreases ty.len() - i,
                    {
                        let found = ty[i].end_doc();
                        if found.is_some() {
                            return found;
                        }
                        i = i + 1;
                    }
                    None
                },
            },
            Types::Array(types) => types.end_doc(),
            _ => None,
        }
    }

    /// The description of the value `key` at the end of a path (see
    /// `end_doc_value`).
    pub fn end_doc_value(&self, key: &str) -> (r: Option<String>)
        ensures
            opt_view(r) == end_doc_value(*self, key@),
        decreases *self, 0nat,
    {
        match self {
            Types::Element(val) => match lookup_value_doc(&val.values, key) {
                Some(d) => Some(d),
                None => {
                    let ty = &val.ty;
                    let mut i: usize = 0;
                    while i < ty.len()
                        invariant
                            i <= ty@.len(),
                            *self matches Types::Element(w) && w.ty == ty && values_doc(w.values, key@) is None,
                            end_doc_value(*self, key@) == types_end_doc_value(ty@, i as nat, key@),
                        decreases ty.len() - i,
                    {
                        let found = ty[i].end_doc_value(key);
                        if found.is_some() {
                            return found;
                        }
                        i = i + 1;
                    }
                    None
                },
            },
            Types::Array(types) => types.end_doc_value(key),
            _ => None,
        }
    }
}

impl Parsed {
    /// The description for the path `keys` from `index` on (see `detail`).
    pub fn get_detail(&self, keys: &[String], index: usize, is_value: bool) -> (r: Option<String>)
        ensures
            opt_view(r) == detail(*self, key_texts(keys@), index as nat, is_value),
        decreases *self, 0nat,
    {
        if index >= keys.len() {
            return None;
        }
        let key = &keys[index];
        let last = index == keys.len() - 1;
        let onel = index + 1 == keys.len() - 1;
        assert(key_texts(keys@)[index as int] == key@);
        let j = match first_match_index(&self.entries, key.as_str()) {
            Some(j) => j,
            None => {
                return None;
            },
        };
        let item: &Val = &self.entries[j].1;
        if last {
            match &item.detail {
                Some(d) => Some(d.clone()),
                None => {
                    let mut i: usize = 0;
                    while i < item.ty.len()
                        invariant
                            i <= item.ty@.len(),
                            item.detail is None,
                            detail(*self, key_texts(keys@), index as nat, is_value) == types_end_doc(item.ty@, i as nat),
                        decreases item.ty.len() - i,
                    {
                        let found = item.ty[i].end_doc();
                        if found.is_some() {
                            return found;
                        }
                        i = i + 1;
                    }
                    None
                },
            }
        } else if onel && is_value {
            let next = &keys[index + 1];
            assert(key_texts(keys@)[index + 1] == next@);
            match lookup_value_doc(&item.values, next.as_str()) {
                Some(d) => Some(d),
                None => {
                    let mut i: usize = 0;
                    while i < item.ty.len()
                        invariant
                            i <= item.ty@.len(),
                            detail(*self, key_texts(keys@), index as nat, is_value) == types_end_doc_value(item.ty@, i as nat, next@),
                        decreases item.ty.len() - i,
                    {
                        let found = item.ty[i].end_doc_value(next.as_str());
                        if found.is_some() {
                            return found;
                        }
                        i = i + 1;
                    }
                    None
                },
            }
        } else {
            let mut i: usize = 0;
            while i < item.ty.len()
                invariant
                    i <= item.ty@.len(),
                    index + 1 < keys@.len(),
                    keys@.len() <= usize::MAX,
                    j < self.entries@.len(),
                    *item == *self.entries@[j as int].1,
                    detail(*self, key_texts(keys@), index as nat, is_value) == types_search(
                        item.ty@,
                        i as nat,
                        key_texts(keys@),
                        (index + 1) as nat,
                        is_value,
                    ),
                decreases item.ty.len() - i,
            {
                proof {
                    assert(decreases_to!(*self => self.entries));
                    assert(decreases_to!(self.entries => self.entries@));
                    assert(decreases_to!(self.entries@ => self.entries@[j as int]));
                    assert(decreases_to!(self.entries@[j as int] => self.entries@[j as int].1));
                    assert(decreases_to!(self.entries@[j as int].1 => item.ty));
                    assert(decreases_to!(item.ty => item.ty@));
                    assert(decreases_to!(item.ty@ => item.ty@[i as int]));
                }
                let found = item.ty[i].search(keys, index + 1, is_value);
                if found.is_some() {
                    return found;
                }
                i = i + 1;
            }
            None
        }
    }
}

// ---------------------------------------------------------------------------
// Reading the schema.

/// Whether `c` is white space: the code points of Unicode's `White_Space`
/// property, which `str::trim` removes.
pub open spec fn is_ws(c: char) -> bool {
    let n = c as u32;
    (9 <= n <= 13) || n == 32 || n == 0x85 || n == 0xa0 || n == 0x1680 || (0x2000 <= n <= 0x200a) || n == 0x2028
        || n == 0x2029 || n == 0x202f || n == 0x205f || n == 0x3000
}

fn is_white(c: char) -> (r: bool)
    ensures
        r == is_ws(c),
{
    let n = c as u32;
    (9 <= n && n <= 13) || n == 32 || n == 0x85 || n == 0xa0 || n == 0x1680 || (0x2000 <= n && n <= 0x200a) || n
        == 0x2028 || n == 0x2029 || n == 0x202f || n == 0x205f || n == 0x3000
}

pub open spec fn trim_start(s: Seq<char>) -> Seq<char>
    decreases s.len(),
{
    if s.len() > 0 && is_ws(s[0]) {
        trim_start(s.drop_first())
    } else {
        s
    }
}

pub open spec fn trim_end(s: Seq<char>) -> Seq<char>
    decreases s.len(),
{
    if s.len() > 0 && is_ws(s.last()) {
        trim_end(s.drop_last())
    } else {
        s
    }
}

/// `s` without white space at either end, as `str::trim` gives it.
pub open spec fn trim(s: Seq<char>) -> Seq<char> {
    trim_end(trim_start(s))
}

fn trimmed(cs: &Vec<char>, from: usize, to: usize) -> (r: String)
    requires
        from <= to <= cs@.len(),
    ensures
        r@ == trim(cs@.subrange(from as int, to as int)),
{
    let mut a = from;
    assert(cs@.subrange(a as int, to as int) == cs@.subrange(from as int, to as int));
    while a < to && is_white(cs[a])
        invariant
            from <= a <= to <= cs@.len(),
            trim_start(cs@.subrange(from as int, to as int)) == trim_start(cs@.subrange(a as int, to as int)),
        decreases to - a,
    {
        assert(cs@.subrange(a as int, to as int).drop_first() == cs@.subrange(a + 1, to as int));
        a = a + 1;
    }
    let mut b = to;
    assert(cs@.subrange(a as int, b as int) == trim_start(cs@.subrange(from as int, to as int)));
    while b > a && is_white(cs[b - 1])
        invariant
            a <= b <= to <= cs@.len(),
            trim(cs@.subrange(from as int, to as int)) == trim_end(cs@.subrange(a as int, b as int)),
        decreases b - a,
    {
        assert(cs@.subrange(a as int, b as int).drop_last() == cs@.subrange(a as int, b - 1));
        b = b - 1;
    }
    string_from_range(cs, a, b)
}

/// The pieces of `s` between the occurrences of `c`, as `str::split` gives
/// them.
pub open spec fn split_all(s: Seq<char>, c: char) -> Seq<Seq<char>>
    decreases s.len(),
{
    if s.len() == 0 {
        seq![seq![]]
    } else {
        let p = split_all(s.drop_last(), c);
        if s.last() == c {
            p.push(seq![])
        } else {
            p.update(p.len() - 1, p.last().push(s.last()))
        }
    }
}

/// Splitting a text at a character gives at least one piece.
pub proof fn lemma_split_nonempty(s: Seq<char>, c: char)
    ensures
        split_all(s, c).len() > 0,
    decreases s.len(),
{
    if s.len() > 0 {
        lemma_split_nonempty(s.drop_last(), c);
    }
}

/// The bounds of the pieces of `s` between the occurrences of `c`.
fn split_bounds(cs: &Vec<char>, c: char) -> (r: Vec<(usize, usize)>)
    ensures
        r@.len() == split_all(cs@, c).len(),
        forall|i: int| 0 <= i < r@.len() ==> (#[trigger] r@[i]).0 <= r@[i].1 <= cs@.len() && cs@.subrange(
            r@[i].0 as int,
            r@[i].1 as int,
        ) == split_all(cs@, c)[i],
{
    let mut out: Vec<(usize, usize)> = Vec::new();
    let mut start: usize = 0;
    let mut i: usize = 0;
    while i < cs.len()
        invariant
            i <= cs@.len(),
            start <= i,
            out@.len() + 1 == split_all(cs@.take(i as int), c).len(),
            forall|k: int| 0 <= k < out@.len() ==> (#[trigger] out@[k]).0 <= out@[k].1 <= i && cs@.subrange(
                out@[k].0 as int,
                out@[k].1 as int,
            ) == split_all(cs@.take(i as int), c)[k],
            cs@.subrange(start as int, i as int) == split_all(cs@.take(i as int), c).last(),
        decreases cs.len() - i,
    {
        let ghost p = split_all(cs@.take(i as int), c);
        assert(cs@.take(i + 1).drop_last() == cs@.take(i as int));
        assert(cs@.take(i + 1).last() == cs@[i as int]);
        proof { lemma_split_nonempty(cs@.take(i as int), c); }
        if cs[i] == c {
            out.push((start, i));
            start = i + 1;
            assert(cs@.subrange(start as int, i + 1) =~= Seq::<char>::empty());
        } else {
            assert(cs@.subrange(start as int, i + 1) =~= cs@.subrange(start as int, i as int).push(cs@[i as int]));
        }
        i = i + 1;
    }
    assert(cs@.take(cs@.len() as int) == cs@);
    out.push((start, cs.len()));
    out
}

/// The index of the last entry named `name`: the one a map keeps.
pub open spec fn lookup(names: Seq<Seq<char>>, name: Seq<char>) -> Option<int>
    decreases names.len(),
{
    if names.len() == 0 {
        None
    } else if names.last() == name {
        Some(names.len() - 1)
    } else {
        lookup(names.drop_last(), name)
    }
}

/// The named components, each name taken as text.
pub open spec fn info_view(info: Seq<(String, Arc<Val>)>) -> Seq<(Seq<char>, Arc<Val>)> {
    info.map_values(|e: (String, Arc<Val>)| (e.0@, e.1))
}

pub open spec fn view_names(iv: Seq<(Seq<char>, Arc<Val>)>) -> Seq<Seq<char>> {
    iv.map_values(|e: (Seq<char>, Arc<Val>)| e.0)
}

pub open spec fn info_names(info: Seq<(String, Arc<Val>)>) -> Seq<Seq<char>> {
    view_names(info_view(info))
}

pub open spec fn array_prefix() -> Seq<char> {
    seq!['a', 'r', 'r', 'a', 'y', '<']
}

/// The type inside `array<...>`, when `s` is written so.
pub open spec fn array_inner(s: Seq<char>) -> Option<Seq<char>> {
    if s.len() >= 7 && s.take(6) == array_prefix() && s.last() == '>' {
        Some(s.subrange(6, s.len() - 1))
    } else {
        None
    }
}

pub open spec fn is_builtin(s: Seq<char>) -> bool {
    s == seq!['s', 't', 'r', 'i', 'n', 'g'] || s == seq!['b', 'o', 'o', 'l'] || s == seq!['o', 'b', 'j', 'e', 'c', 't']
}

/// Whether every name that the type `s` refers to is among `names`.
pub open spec fn type_known(s: Seq<char>, names: Seq<Seq<char>>) -> bool
    decreases s.len(),
{
    if is_builtin(s) {
        true
    } else {
        match array_inner(s) {
            Some(x) => type_known(x, names),
            None => lookup(names, s) is Some,
        }
    }
}

/// Whether `t` is what the type name `s` reads as: a string, a bool, an
/// object, an array of the inner type, or the named element of `info`.
pub open spec fn types_from(t: Types, s: Seq<char>, info: Seq<(Seq<char>, Arc<Val>)>) -> bool
    decreases s.len(),
{
    if s == seq!['s', 't', 'r', 'i', 'n', 'g'] {
        t is String
    } else if s == seq!['b', 'o', 'o', 'l'] {
        t is Bool
    } else if s == seq!['o', 'b', 'j', 'e', 'c', 't'] {
        t is Object
    } else {
        match array_inner(s) {
            Some(x) => t matches Types::Array(b) && types_from(*b, x, info),
            None => match lookup(view_names(info), s) {
                Some(i) => t matches Types::Element(a) && a == info[i].1,
                None => false,
            },
        }
    }
}

fn lookup_index(info: &Vec<(String, Arc<Val>)>, name: &str) -> (r: Option<usize>)
    ensures
        r matches Some(k) ==> k < info@.len() && lookup(info_names(info@), name@) == Some(k as int),
        r is None ==> lookup(info_names(info@), name@) is None,
{
    let mut i: usize = info.len();
    assert(info_names(info@).take(i as int) == info_names(info@));
    while i > 0
        invariant
            i <= info@.len(),
            lookup(info_names(info@), name@) == lookup(info_names(info@).take(i as int), name@),
        decreases i,
    {
        assert(info_names(info@).take(i as int).drop_last() == info_names(info@).take(i - 1));
        assert(info_names(info@).take(i as int).last() == info@[i - 1].0@);
        if same_text(info[i - 1].0.as_str(), name) {
            return Some(i - 1);
        }
        i = i - 1;
    }
    None
}

/// Reads a type name (see `types_from`).
fn parse_type(v: &str, info: &Vec<(String, Arc<Val>)>) -> (r: Types)
    requires
        type_known(v@, info_names(info@)),
    ensures
        types_from(r, v@, info_view(info@)),
    decreases v@.len(),
{
    proof {
        reveal_strlit("string");
        reveal_strlit("bool");
        reveal_strlit("object");
        assert("string"@ =~= seq!['s', 't', 'r', 'i', 'n', 'g']);
        assert("bool"@ =~= seq!['b', 'o', 'o', 'l']);
        assert("object"@ =~= seq!['o', 'b', 'j', 'e', 'c', 't']);
    }
    if same_text(v, "string") {
        assert(v@ =~= seq!['s', 't', 'r', 'i', 'n', 'g']);
        Types::String
    } else if same_text(v, "bool") {
        assert(v@ =~= seq!['b', 'o', 'o', 'l']);
        Types::Bool
    } else if same_text(v, "object") {
        assert(v@ =~= seq!['o', 'b', 'j', 'e', 'c', 't']);
        Types::Object
    } else {
        assert(v@ != seq!['s', 't', 'r', 'i', 'n', 'g']);
        assert(v@ != seq!['b', 'o', 'o', 'l']);
        assert(v@ != seq!['o', 'b', 'j', 'e', 'c', 't']);
        let cs = chars_of(v);
        let n = cs.len();
        let arr = n >= 7 && cs[0] == 'a' && cs[1] == 'r' && cs[2] == 'r' && cs[3] == 'a' && cs[4] == 'y' && cs[5] == '<'
            && cs[n - 1] == '>';
        if arr {
            assert(cs@.take(6) =~= array_prefix());
            let inner = string_from_range(&cs, 6, n - 1);
            assert(v@.last() == cs@[n - 1]);
            assert(array_inner(v@) == Some(inner@));
            assert(!is_builtin(v@));
            let inner_type = parse_type(inner.as_str(), info);
            Types::Array(Box::new(inner_type))
        } else {
            assert(array_inner(v@) is None) by {
                if v@.len() >= 7 && v@.take(6) == array_prefix() {
                    assert(v@.take(6)[0] == v@[0]);
                    assert(v@.take(6)[5] == v@[5]);
                }
            }
            match lookup_index(info, v) {
                Some(k) => Types::Element(arc_clone(&info[k].1)),
                None => Types::Object,
            }
        }
    }
}

/// The key of the schema that `s` reads as: after a `$`, a pattern; else
/// an exact name.
pub open spec fn key_from(k: SchemaKey, s: Seq<char>) -> bool {
    if s.len() > 0 && s[0] == '$' {
        k matches SchemaKey::Pattern(p) && p@ == s.drop_first()
    } else {
        k matches SchemaKey::Exact(x) && x@ == s
    }
}

/// A key that starts with `$` holds a pattern that compiles.
pub open spec fn key_ok(s: Seq<char>) -> bool {
    s.len() > 0 && s[0] == '$' ==> regex_compiles(s.drop_first())
}

/// The possible values of an element, each with its description if the
/// schema gives one.
pub open spec fn values_from(vals: Option<Vec<(String, Option<String>)>>, ev: Option<Values>) -> bool {
    match (vals, ev) {
        (None, None) => true,
        (Some(v), Some(Values::NoDetail(names))) => v@.len() == names@.len() && forall|i: int|
            0 <= i < v@.len() ==> (#[trigger] v@[i]).0@ == names@[i]@ && v@[i].1 is None,
        (Some(v), Some(Values::Detail(pairs))) => v@.len() == pairs@.len() && forall|i: int|
            0 <= i < v@.len() ==> (#[trigger] v@[i]).0@ == pairs@[i].0@ && opt_view(v@[i].1) == Some(pairs@[i].1@),
        _ => false,
    }
}

/// The type names of an element's `|`-separated list, trimmed.
pub open spec fn type_names(id: Seq<char>) -> Seq<Seq<char>> {
    split_all(id, '|').map_values(|x: Seq<char>| trim(x))
}

/// Whether an element can be read with the named components `names`: its
/// type names refer to known components, and its patterns compile.
pub open spec fn element_ok(e: Element, names: Seq<Seq<char>>) -> bool
    decreases e,
{
    match e.contents {
        ElementKind::Id(id) => forall|i: int| 0 <= i < type_names(id@).len() ==> type_known(#[trigger] type_names(id@)[i], names),
        ElementKind::Complex(es) => forall|i: int| 0 <= i < es@.len() ==> key_ok((#[trigger] es@[i]).0@) && element_ok(es@[i].1, names),
    }
}

/// Whether `v` is what the element `e` reads as with the components
/// `info`: its types (each type name, or the table of its elements by key),
/// its default, its description and its values.
pub open spec fn val_from(v: Val, e: Element, info: Seq<(Seq<char>, Arc<Val>)>) -> bool
    decreases e,
{
    &&& v.default == e.default
    &&& v.detail == e.description
    &&& values_from(v.values, e.values)
    &&& match e.contents {
        ElementKind::Id(id) => v.ty@.len() == type_names(id@).len() && forall|i: int|
            0 <= i < v.ty@.len() ==> types_from(#[trigger] v.ty@[i], type_names(id@)[i], info),
        ElementKind::Complex(es) => v.ty@.len() == 1 && (v.ty@[0] matches Types::Table(p) && p.entries@.len()
            == es@.len() && forall|i: int|
            0 <= i < es@.len() ==> key_from((#[trigger] p.entries@[i]).0, es@[i].0@) && val_from(
                *p.entries@[i].1,
                es@[i].1,
                info,
            )),
    }
}

fn read_key(k: &str) -> (r: SchemaKey)
    ensures
        key_from(r, k@),
{
    let cs = chars_of(k);
    if cs.len() > 0 && cs[0] == '$' {
        let rest = string_from_range(&cs, 1, cs.len());
        assert(cs@.subrange(1, cs@.len() as int) == cs@.drop_first());
        SchemaKey::Pattern(rest)
    } else {
        SchemaKey::Exact(crate::text::owned(k))
    }
}

fn read_values(ev: Option<Values>) -> (r: Option<Vec<(String, Option<String>)>>)
    ensures
        values_from(r, ev),
{
    match ev {
        None => None,
        Some(Values::NoDetail(names)) => {
            let mut out: Vec<(String, Option<String>)> = Vec::new();
            let mut i: usize = 0;
            while i < names.len()
                invariant
                    i <= names@.len(),
                    out@.len() == i,
                    forall|k: int| 0 <= k < i ==> (#[trigger] out@[k]).0@ == names@[k]@ && out@[k].1 is None,
                decreases names.len() - i,
            {
                out.push((names[i].clone(), None));
                i = i + 1;
            }
            Some(out)
        },
        Some(Values::Detail(pairs)) => {
            let mut out: Vec<(String, Option<String>)> = Vec::new();
            let mut i: usize = 0;
            while i < pairs.len()
                invariant
                    i <= pairs@.len(),
                    out@.len() == i,
                    forall|k: int| 0 <= k < i ==> (#[trigger] out@[k]).0@ == pairs@[k].0@ && opt_view(out@[k].1) == Some(
                        pairs@[k].1@,
                    ),
                decreases pairs.len() - i,
            {
                out.push((pairs[i].0.clone(), Some(pairs[i].1.clone())));
                i = i + 1;
            }
            Some(out)
        },
    }
}

/// Reads an element of the schema with the named components `info` (see
/// `val_from`).
pub fn parse(t: Element, info: &Vec<(String, Arc<Val>)>) -> (r: Val)
    requires
        element_ok(t, info_names(info@)),
    ensures
        val_from(r, t, info_view(info@)),
    decreases t,
{
    let ghost t0 = t;
    let ty: Vec<Types> = match t.contents {
        ElementKind::Id(id) => {
            let cs = chars_of(id.as_str());
            let bounds = split_bounds(&cs, '|');
            let mut out: Vec<Types> = Vec::new();
            let mut i: usize = 0;
            while i < bounds.len()
                invariant
                    i <= bounds@.len(),
                    cs@ == id@,
                    t0.contents == ElementKind::Id(id),
                    element_ok(t0, info_names(info@)),
                    bounds@.len() == type_names(id@).len(),
                    forall|k: int| 0 <= k < bounds@.len() ==> (#[trigger] bounds@[k]).0 <= bounds@[k].1 <= cs@.len()
                        && cs@.subrange(bounds@[k].0 as int, bounds@[k].1 as int) == split_all(cs@, '|')[k],
                    out@.len() == i,
                    forall|k: int| 0 <= k < i ==> types_from(#[trigger] out@[k], type_names(id@)[k], info_view(info@)),
                decreases bounds.len() - i,
            {
                let piece = trimmed(&cs, bounds[i].0, bounds[i].1);
                assert(piece@ == type_names(id@)[i as int]);
                assert(element_ok(t0, info_names(info@)));
                assert(t0.contents is Id);
                assert(t0.contents->Id_0 == id);
                assert(forall|k: int| 0 <= k < type_names(id@).len() ==> type_known(#[trigger] type_names(id@)[k], info_names(info@)));
                assert(type_known(type_names(id@)[i as int], info_names(info@)));
                let one = parse_type(piece.as_str(), info);
                out.push(one);
                i = i + 1;
            }
            out
        },
        ElementKind::Complex(entries) => {
            let ghost es = entries@;
            let _n = entries.len();
            let mut rest = entries;
            let mut out: Vec<(SchemaKey, Arc<Val>)> = Vec::new();
            let mut i: usize = 0;
            while rest.len() > 0
                invariant
                    t0.contents matches ElementKind::Complex(w) && w@ == es,
                    t == t0,
                    element_ok(t0, info_names(info@)),
                    i + rest@.len() == es.len(),
                    es.len() <= usize::MAX,
                    rest@ == es.skip(i as int),
                    out@.len() == i,
                    forall|k: int| 0 <= k < i ==> key_from((#[trigger] out@[k]).0, es[k].0@) && val_from(
                        *out@[k].1,
                        es[k].1,
                        info_view(info@),
                    ),
                decreases rest.len(),
            {
                let (k, v) = rest.remove(0);
                assert(es[i as int] == (k, v));
                assert(key_ok(es[i as int].0@) && element_ok(es[i as int].1, info_names(info@)));
                proof {
                    assert(decreases_to!(t0 => t0.contents));
                    assert(decreases_to!(t0.contents => t0.contents->Complex_0));
                    assert(decreases_to!(t0.contents->Complex_0 => es));
                    assert(decreases_to!(es => es[i as int]));
                    assert(decreases_to!(es[i as int] => es[i as int].1));
                    assert(decreases_to!(t0 => v));
                }
                let key = read_key(k.as_str());
                let val = parse(v, info);
                out.push((key, Arc::new(val)));
                assert(rest@ =~= es.skip(i + 1));
                i = i + 1;
            }
            let mut ty: Vec<Types> = Vec::new();
            ty.push(Types::Table(Parsed { entries: out }));
            ty
        },
    };
    let values = read_values(t.values);
    Val { ty, default: t.default, detail: t.description, values }
}

// ---------------------------------------------------------------------------
// Checking that an element can be read.

fn lookup_name(names: &Vec<String>, name: &str) -> (r: bool)
    ensures
        r == (lookup(crate::info_api::string_views(names@), name@) is Some),
{
    let mut i: usize = names.len();
    assert(crate::info_api::string_views(names@).take(i as int) == crate::info_api::string_views(names@));
    while i > 0
        invariant
            i <= names@.len(),
            lookup(crate::info_api::string_views(names@), name@) == lookup(
                crate::info_api::string_views(names@).take(i as int),
                name@,
            ),
        decreases i,
    {
        assert(crate::info_api::string_views(names@).take(i as int).drop_last()
            == crate::info_api::string_views(names@).take(i - 1));
        assert(crate::info_api::string_views(names@).take(i as int).last() == names@[i - 1]@);
        if same_text(names[i - 1].as_str(), name) {
            return true;
        }
        i = i - 1;
    }
    false
}

/// Whether the type name `v` refers to known names only (see `type_known`).
fn type_is_known(v: &str, names: &Vec<String>) -> (r: bool)
    ensures
        r == type_known(v@, crate::info_api::string_views(names@)),
    decreases v@.len(),
{
    proof {
        reveal_strlit("string");
        reveal_strlit("bool");
        reveal_strlit("object");
        assert("string"@ =~= seq!['s', 't', 'r', 'i', 'n', 'g']);
        assert("bool"@ =~= seq!['b', 'o', 'o', 'l']);
        assert("object"@ =~= seq!['o', 'b', 'j', 'e', 'c', 't']);
    }
    if same_text(v, "string") || same_text(v, "bool") || same_text(v, "object") {
        return true;
    }
    let cs = chars_of(v);
    let n = cs.len();
    let arr = n >= 7 && cs[0] == 'a' && cs[1] == 'r' && cs[2] == 'r' && cs[3] == 'a' && cs[4] == 'y' && cs[5] == '<' && cs[n
        - 1] == '>';
    if arr {
        assert(cs@.take(6) =~= array_prefix());
        let inner = string_from_range(&cs, 6, n - 1);
        assert(v@.last() == cs@[n - 1]);
        assert(array_inner(v@) == Some(inner@));
        type_is_known(inner.as_str(), names)
    } else {
        assert(array_inner(v@) is None) by {
            if v@.len() >= 7 && v@.take(6) == array_prefix() {
                assert(v@.take(6)[0] == v@[0]);
                assert(v@.take(6)[5] == v@[5]);
            }
        }
        lookup_name(names, v)
    }
}

/// Whether a key of the schema is fine (see `key_ok`).
fn key_is_ok(k: &str) -> (r: bool)
    ensures
        r == key_ok(k@),
{
    let cs = chars_of(k);
    if cs.len() > 0 && cs[0] == '$' {
        let rest = string_from_range(&cs, 1, cs.len());
        assert(cs@.subrange(1, cs@.len() as int) == cs@.drop_first());
        regex_valid(rest.as_str())
    } else {
        true
    }
}

/// Whether an element can be read with the names `names` known (see
/// `element_ok`).
pub fn element_is_ok(e: &Element, names: &Vec<String>) -> (r: bool)
    ensures
        r == element_ok(*e, crate::info_api::string_views(names@)),
    decreases *e,
{
    let ghost ns = crate::info_api::string_views(names@);
    match &e.contents {
        ElementKind::Id(id) => {
            let cs = chars_of(id.as_str());
            let bounds = split_bounds(&cs, '|');
            let mut i: usize = 0;
            while i < bounds.len()
                invariant
                    i <= bounds@.len(),
                    cs@ == id@,
                    e.contents matches ElementKind::Id(w) && w == id,
                    bounds@.len() == type_names(id@).len(),
                    forall|k: int| 0 <= k < bounds@.len() ==> (#[trigger] bounds@[k]).0 <= bounds@[k].1 <= cs@.len()
                        && cs@.subrange(bounds@[k].0 as int, bounds@[k].1 as int) == split_all(cs@, '|')[k],
                    forall|k: int| 0 <= k < i ==> type_known(#[trigger] type_names(id@)[k], crate::info_api::string_views(names@)),
                decreases bounds.len() - i,
            {
                let piece = trimmed(&cs, bounds[i].0, bounds[i].1);
                assert(piece@ == type_names(id@)[i as int]);
                if !type_is_known(piece.as_str(), names) {
                    assert(!type_known(type_names(id@)[i as int], crate::info_api::string_views(names@)));
                    return false;
                }
                i = i + 1;
            }
            true
        },
        ElementKind::Complex(es) => {
            let mut i: usize = 0;
            while i < es.len()
                invariant
                    i <= es@.len(),
                    e.contents matches ElementKind::Complex(w) && w == es,
                    forall|k: int| 0 <= k < i ==> key_ok((#[trigger] es@[k]).0@) && element_ok(
                        es@[k].1,
                        crate::info_api::string_views(names@),
                    ),
                decreases es.len() - i,
            {
                if !key_is_ok(es[i].0.as_str()) || !element_is_ok(&es[i].1, names) {
                    return false;
                }
                i = i + 1;
            }
            true
        },
    }
}

/// Reads an element when it can be read (see `parse`); nothing when a type
/// name is unknown or a pattern does not compile.
pub fn parse_checked(t: Element, info: &Vec<(String, Arc<Val>)>) -> (r: Option<Val>)
    ensures
        r is Some <==> element_ok(t, info_names(info@)),
        r matches Some(v) ==> val_from(v, t, info_view(info@)),
{
    let mut names: Vec<String> = Vec::new();
    let mut i: usize = 0;
    while i < info.len()
        invariant
            i <= info@.len(),
            crate::info_api::string_views(names@) == info_names(info@).take(i as int),
        decreases info.len() - i,
    {
        let ghost before = names@;
        names.push(info[i].0.clone());
        assert(crate::info_api::string_views(names@) =~= crate::info_api::string_views(before).push(info@[i as int].0@));
        assert(info_names(info@).take(i + 1) =~= info_names(info@).take(i as int).push(info@[i as int].0@));
        i = i + 1;
    }
    assert(info_names(info@).take(info@.len() as int) == info_names(info@));
    if element_is_ok(&t, &names) {
        Some(parse(t, info))
    } else {
        None
    }
}

// ---------------------------------------------------------------------------
// Reading the whole schema.

pub open spec fn package_key() -> Seq<char> {
    seq!['p', 'a', 'c', 'k', 'a', 'g', 'e']
}

/// The name under which the `package` element is known to later elements.
pub open spec fn package_ref() -> Seq<char> {
    seq!['$', 'p', 'a', 'c', 'k', 'a', 'g', 'e']
}

pub open spec fn entry_names(es: Seq<(String, Element)>) -> Seq<Seq<char>> {
    es.map_values(|c: (String, Element)| c.0@)
}

/// The names known when the schema entry `i` is read: every component,
/// then `$package` for each `package` entry before it.
pub open spec fn schema_names(comps: Seq<(String, Element)>, schema: Seq<(String, Element)>, i: nat) -> Seq<Seq<char>>
    decreases i,
{
    if i == 0 {
        entry_names(comps)
    } else {
        let prev = schema_names(comps, schema, (i - 1) as nat);
        if schema[i - 1].0@ == package_key() {
            prev.push(package_ref())
        } else {
            prev
        }
    }
}

/// Whether the schema can be read: each component refers to the components
/// before it only, each schema element to the components and the `package`
/// elements before it, and every pattern compiles.
pub open spec fn data_ok(d: Data) -> bool {
    &&& forall|i: int| 0 <= i < d.components@.len() ==> element_ok(
        (#[trigger] d.components@[i]).1,
        entry_names(d.components@.take(i)),
    )
    &&& forall|i: int| 0 <= i < d.schema@.len() ==> key_ok((#[trigger] d.schema@[i]).0@) && element_ok(
        d.schema@[i].1,
        schema_names(d.components@, d.schema@, i as nat),
    )
}

/// Whether `info` holds the components of `comps`, each read with the
/// components before it.
pub open spec fn comps_read(info: Seq<(Seq<char>, Arc<Val>)>, comps: Seq<(String, Element)>) -> bool {
    info.len() == comps.len() && forall|i: int| 0 <= i < info.len() ==> (#[trigger] info[i]).0 == comps[i].0@ && val_from(
        *info[i].1,
        comps[i].1,
        info.take(i),
    )
}

/// The components known when the schema entry `i` is read: those of
/// `base`, then the `package` element, as `$package`, for each entry before
/// it named so.
pub open spec fn schema_info(
    base: Seq<(Seq<char>, Arc<Val>)>,
    schema: Seq<(String, Element)>,
    entries: Seq<(SchemaKey, Arc<Val>)>,
    i: nat,
) -> Seq<(Seq<char>, Arc<Val>)>
    decreases i,
{
    if i == 0 {
        base
    } else {
        let prev = schema_info(base, schema, entries, (i - 1) as nat);
        if schema[i - 1].0@ == package_key() {
            prev.push((package_ref(), entries[i - 1].1))
        } else {
            prev
        }
    }
}

/// The components known at an entry depend on the entries before it only.
pub proof fn lemma_schema_info_prefix(
    base: Seq<(Seq<char>, Arc<Val>)>,
    schema: Seq<(String, Element)>,
    a: Seq<(SchemaKey, Arc<Val>)>,
    b: Seq<(SchemaKey, Arc<Val>)>,
    i: nat,
)
    requires
        i <= a.len(),
        i <= b.len(),
        forall|k: int| 0 <= k < i ==> a[k] == b[k],
    ensures
        schema_info(base, schema, a, i) == schema_info(base, schema, b, i),
    decreases i,
{
    if i > 0 {
        lemma_schema_info_prefix(base, schema, a, b, (i - 1) as nat);
    }
}

/// The components known at an entry start with those of `base`.
pub proof fn lemma_schema_info_base(
    base: Seq<(Seq<char>, Arc<Val>)>,
    schema: Seq<(String, Element)>,
    entries: Seq<(SchemaKey, Arc<Val>)>,
    i: nat,
)
    ensures
        schema_info(base, schema, entries, i).len() >= base.len(),
        schema_info(base, schema, entries, i).take(base.len() as int) == base,
    decreases i,
{
    if i > 0 {
        lemma_schema_info_base(base, schema, entries, (i - 1) as nat);
        let prev = schema_info(base, schema, entries, (i - 1) as nat);
        assert(prev.push((package_ref(), entries[i - 1].1)).take(base.len() as int) =~= prev.take(base.len() as int));
    }
}

/// The names of the components known at an entry are `schema_names`.
pub proof fn lemma_schema_info_names(
    base: Seq<(Seq<char>, Arc<Val>)>,
    comps: Seq<(String, Element)>,
    schema: Seq<(String, Element)>,
    entries: Seq<(SchemaKey, Arc<Val>)>,
    i: nat,
)
    requires
        view_names(base) == entry_names(comps),
    ensures
        view_names(schema_info(base, schema, entries, i)) == schema_names(comps, schema, i),
    decreases i,
{
    if i > 0 {
        lemma_schema_info_names(base, comps, schema, entries, (i - 1) as nat);
        let prev = schema_info(base, schema, entries, (i - 1) as nat);
        assert(view_names(prev.push((package_ref(), entries[i - 1].1))) =~= view_names(prev).push(package_ref()));
    }
}

/// What holds of the first `j` entries read from the schema.
pub open spec fn entries_read(
    base: Seq<(Seq<char>, Arc<Val>)>,
    sch: Seq<(String, Element)>,
    out: Seq<(SchemaKey, Arc<Val>)>,
    j: int,
) -> bool {
    forall|k: int| 0 <= k < j ==> key_from((#[trigger] out[k]).0, sch[k].0@) && val_from(
        *out[k].1,
        sch[k].1,
        schema_info(base, sch, out, k as nat),
    )
}

/// Reading one more schema entry keeps what holds of those before.
pub proof fn lemma_entries_step(
    base: Seq<(Seq<char>, Arc<Val>)>,
    sch: Seq<(String, Element)>,
    out: Seq<(SchemaKey, Arc<Val>)>,
    e: (SchemaKey, Arc<Val>),
)
    requires
        out.len() < sch.len(),
        entries_read(base, sch, out, out.len() as int),
        key_from(e.0, sch[out.len() as int].0@),
        val_from(*e.1, sch[out.len() as int].1, schema_info(base, sch, out, out.len() as nat)),
    ensures
        entries_read(base, sch, out.push(e), out.len() + 1int),
{
    let n = out.push(e);
    assert forall|k: int| 0 <= k < out.len() + 1 implies key_from((#[trigger] n[k]).0, sch[k].0@) && val_from(
        *n[k].1,
        sch[k].1,
        schema_info(base, sch, n, k as nat),
    ) by {
        lemma_schema_info_prefix(base, sch, out, n, k as nat);
    }
}

/// Reading one more component keeps what holds of those before.
pub proof fn lemma_comps_step(
    info: Seq<(Seq<char>, Arc<Val>)>,
    comps: Seq<(String, Element)>,
    i: int,
    e: (Seq<char>, Arc<Val>),
)
    requires
        0 <= i < comps.len(),
        comps_read(info, comps.take(i)),
        e.0 == comps[i].0@,
        val_from(*e.1, comps[i].1, info),
    ensures
        comps_read(info.push(e), comps.take(i + 1)),
{
    let n = info.push(e);
    assert forall|k: int| 0 <= k < n.len() implies (#[trigger] n[k]).0 == comps.take(i + 1)[k].0@ && val_from(
        *n[k].1,
        comps.take(i + 1)[k].1,
        n.take(k),
    ) by {
        if k < i {
            assert(n.take(k) =~= info.take(k));
        } else {
            assert(n.take(k) =~= info);
        }
    }
}

/// Whether `p` and `info` are what the schema `d` reads as: the components
/// each read with those before them, then the schema's elements by key,
/// each read with the components and the `package` elements before it.
pub open spec fn data_read(d: Data, p: Parsed, info: Seq<(String, Arc<Val>)>) -> bool {
    let base = info_view(info).take(d.components@.len() as int);
    &&& comps_read(base, d.components@)
    &&& info_view(info) == schema_info(base, d.schema@, p.entries@, d.schema@.len())
    &&& p.entries@.len() == d.schema@.len()
    &&& forall|i: int|
        0 <= i < d.schema@.len() ==> key_from((#[trigger] p.entries@[i]).0, d.schema@[i].0@) && val_from(
            *p.entries@[i].1,
            d.schema@[i].1,
            schema_info(base, d.schema@, p.entries@, i as nat),
        )
}

/// Reads the whole schema: first the components, each with those before it
/// known; then the schema's elements, in order, each with the components and
/// the `package` element (as `$package`) known once it is read. Gives the
/// elements by key and the named components in the end.
pub fn parse_data(data: Data) -> (r: (Parsed, Vec<(String, Arc<Val>)>))
    requires
        data_ok(data),
    ensures
        data_read(data, r.0, r.1@),
{
    let ghost d = data;
    let Data { schema, components } = data;
    let ghost comps = components@;
    let ghost sch = schema@;
    let _nc = components.len();
    let _ns = schema.len();
    let mut map: Vec<(String, Arc<Val>)> = Vec::new();
    let mut rest = components;
    let mut i: usize = 0;
    while rest.len() > 0
        invariant
            data_ok(d),
            d.components@ == comps,
            comps.len() <= usize::MAX,
            i + rest@.len() == comps.len(),
            rest@ == comps.skip(i as int),
            comps_read(info_view(map@), comps.take(i as int)),
        decreases rest.len(),
    {
        let (k, v) = rest.remove(0);
        assert(comps[i as int] == (k, v));
        assert(info_names(map@) =~= entry_names(comps.take(i as int)));
        assert(element_ok(comps[i as int].1, entry_names(comps.take(i as int))));
        let res = parse(v, &map);
        let ghost before = info_view(map@);
        let a = Arc::new(res);
        proof { lemma_comps_step(before, comps, i as int, (comps[i as int].0@, a)); }
        map.push((k, a));
        assert(info_view(map@) =~= before.push((comps[i as int].0@, a)));
        assert(rest@ =~= comps.skip(i + 1));
        i = i + 1;
    }
    assert(comps.take(comps.len() as int) == comps);
    let ghost base = info_view(map@);
    assert(view_names(base) =~= entry_names(comps));
    let mut rest = schema;
    let mut out: Vec<(SchemaKey, Arc<Val>)> = Vec::new();
    let mut j: usize = 0;
    while rest.len() > 0
        invariant
            data_ok(d),
            d.components@ == comps,
            d.schema@ == sch,
            sch.len() <= usize::MAX,
            comps_read(base, comps),
            view_names(base) == entry_names(comps),
            comps.len() == base.len(),
            info_view(map@) == schema_info(base, sch, out@, j as nat),
            j + rest@.len() == sch.len(),
            rest@ == sch.skip(j as int),
            out@.len() == j,
            entries_read(base, sch, out@, j as int),
        decreases rest.len(),
    {
        let (k, v) = rest.remove(0);
        assert(sch[j as int] == (k, v));
        proof { lemma_schema_info_names(base, comps, sch, out@, j as nat); }
        assert(info_names(map@) == schema_names(comps, sch, j as nat));
        assert(key_ok(sch[j as int].0@) && element_ok(sch[j as int].1, schema_names(comps, sch, j as nat)));
        let res = parse(v, &map);
        let c = Arc::new(res);
        let ghost out_before = out@;
        let ghost map_before = info_view(map@);
        proof { reveal_strlit("package"); reveal_strlit("$package"); }
        assert("package"@ =~= package_key());
        assert("$package"@ =~= package_ref());
        let is_package = same_text(k.as_str(), "package");
        let key = read_key(k.as_str());
        if is_package {
            map.push((crate::text::owned("$package"), arc_clone(&c)));
        }
        proof { lemma_entries_step(base, sch, out_before, (key, c)); }
        out.push((key, c));
        proof {
            lemma_schema_info_prefix(base, sch, out_before, out@, j as nat);
            if is_package {
                assert(info_view(map@) =~= map_before.push((package_ref(), out@[j as int].1)));
            } else {
                assert(info_view(map@) =~= map_before);
            }
            lemma_schema_info_base(base, sch, out@, (j + 1) as nat);
        }
        assert(rest@ =~= sch.skip(j + 1));
        j = j + 1;
    }
    assert(j == sch.len());
    proof { lemma_schema_info_base(base, sch, out@, j as nat); }
    assert(info_view(map@).take(comps.len() as int) == base);
    (Parsed { entries: out }, map)
}

/// Reads the whole schema when it can be read (see `parse_data`); nothing
/// when an element refers to an unknown name or a pattern does not compile.
pub fn parse_data_checked(data: Data) -> (r: Option<(Parsed, Vec<(String, Arc<Val>)>)>)
    ensures
        r is Some <==> data_ok(data),
        r matches Some(x) ==> data_read(data, x.0, x.1@),
{
    let mut names: Vec<String> = Vec::new();
    let mut i: usize = 0;
    while i < data.components.len()
        invariant
            i <= data.components@.len(),
            crate::info_api::string_views(names@) == entry_names(data.components@.take(i as int)),
            forall|k: int| 0 <= k < i ==> element_ok(
                (#[trigger] data.components@[k]).1,
                entry_names(data.components@.take(k)),
            ),
        decreases data.components.len() - i,
    {
        if !element_is_ok(&data.components[i].1, &names) {
            return None;
        }
        let ghost before = names@;
        names.push(data.components[i].0.clone());
        assert(crate::info_api::string_views(names@) =~= crate::info_api::string_views(before).push(
            data.components@[i as int].0@,
        ));
        assert(entry_names(data.components@.take(i + 1)) =~= entry_names(data.components@.take(i as int)).push(
            data.components@[i as int].0@,
        ));
        i = i + 1;
    }
    assert(data.components@.take(data.components@.len() as int) == data.components@);
    let mut j: usize = 0;
    proof {
        reveal_strlit("package");
        reveal_strlit("$package");
    }
    assert("package"@ =~= package_key());
    assert("$package"@ =~= package_ref());
    while j < data.schema.len()
        invariant
            j <= data.schema@.len(),
            crate::info_api::string_views(names@) == schema_names(data.components@, data.schema@, j as nat),
            forall|k: int| 0 <= k < data.components@.len() ==> element_ok(
                (#[trigger] data.components@[k]).1,
                entry_names(data.components@.take(k)),
            ),
            forall|k: int| 0 <= k < j ==> key_ok((#[trigger] data.schema@[k]).0@) && element_ok(
                data.schema@[k].1,
                schema_names(data.components@, data.schema@, k as nat),
            ),
            "package"@ == package_key(),
            "$package"@ == package_ref(),
        decreases data.schema.len() - j,
    {
        if !key_is_ok(data.schema[j].0.as_str()) || !element_is_ok(&data.schema[j].1, &names) {
            return None;
        }
        if same_text(data.schema[j].0.as_str(), "package") {
            let ghost before = names@;
            names.push(crate::text::owned("$package"));
            assert(crate::info_api::string_views(names@) =~= crate::info_api::string_views(before).push(package_ref()));
        }
        j = j + 1;
    }
    Some(parse_data(data))
}

} // verus!
