//! An open document of the editor: a manifest with its positioned
//! declarations, or a lock file; and what the server tells about it.
use vstd::prelude::*;
use crate::hints::Lock;
use crate::positioned::{Dependency, Feature, Positioned, Source};
use crate::raw::CargoRawData;
use crate::rust_version::{parse_version, version_order, version_text, RustVersion, VersionView};
use crate::structure::Cargo;
use crate::text::{chars_of, owned, push_str, same_text, string_from};
use crate::lock::chars_in_bytes;
use crate::position::{get_byte_index_from_position, line_start, position_target};
use crate::toml::utf8_len;

verus! {

/// An open document.
pub enum Toml {
    Cargo { cargo: Cargo, raw: CargoRawData },
    Lock(Lock),
}

/// The first of `items` whose range holds `pos`.
pub open spec fn first_holding<T>(items: Seq<Positioned<T>>, pos: u32) -> Option<int>
    decreases items.len(),
{
    if items.len() == 0 {
        None
    } else if items[0].start <= pos && pos <= items[0].end {
        Some(0)
    } else {
        match first_holding(items.drop_first(), pos) {
            Some(i) => Some(i + 1),
            None => None,
        }
    }
}

/// The first of `items` whose range meets `start..=end`.
pub open spec fn first_meeting<T>(items: Seq<Positioned<T>>, start: u32, end: u32) -> Option<int>
    decreases items.len(),
{
    if items.len() == 0 {
        None
    } else if items[0].start <= end && start <= items[0].end {
        Some(0)
    } else {
        match first_meeting(items.drop_first(), start, end) {
            Some(i) => Some(i + 1),
            None => None,
        }
    }
}

fn find_holding<T>(items: &Vec<Positioned<T>>, pos: u32) -> (r: Option<usize>)
    ensures
        r matches Some(i) ==> i < items@.len() && first_holding(items@, pos) == Some(i as int),
        r is None ==> first_holding(items@, pos) is None,
{
    let mut i: usize = 0;
    assert(items@.skip(0) == items@);
    while i < items.len()
        invariant
            i <= items@.len(),
            first_holding(items@, pos) == match first_holding(items@.skip(i as int), pos) {
                Some(j) => Some(j + i),
                None => None::<int>,
            },
        decreases items.len() - i,
    {
        assert(items@.skip(i as int).drop_first() == items@.skip(i + 1));
        if items[i].contains_inclusive(pos) {
            return Some(i);
        }
        i = i + 1;
    }
    None
}

fn find_meeting<T>(items: &Vec<Positioned<T>>, start: u32, end: u32) -> (r: Option<usize>)
    ensures
        r matches Some(i) ==> i < items@.len() && first_meeting(items@, start, end) == Some(i as int),
        r is None ==> first_meeting(items@, start, end) is None,
{
    let mut i: usize = 0;
    assert(items@.skip(0) == items@);
    while i < items.len()
        invariant
            i <= items@.len(),
            first_meeting(items@, start, end) == match first_meeting(items@.skip(i as int), start, end) {
                Some(j) => Some(j + i),
                None => None::<int>,
            },
        decreases items.len() - i,
    {
        assert(items@.skip(i as int).drop_first() == items@.skip(i + 1));
        if items[i].is_in_range(start, end) {
            return Some(i);
        }
        i = i + 1;
    }
    None
}

/// The characters after the last line break.
pub open spec fn chars_since_newline(s: Seq<char>) -> nat
    decreases s.len(),
{
    if s.len() == 0 {
        0
    } else if s.last() == '\n' {
        0
    } else {
        chars_since_newline(s.drop_last()) + 1
    }
}

/// The line (the line breaks before it) and the column (the characters
/// since the last line break) of a byte offset that ends the first `k`
/// characters.
pub open spec fn position_of(s: Seq<char>, k: int) -> (nat, nat) {
    (crate::position::newline_count(s.take(k)), chars_since_newline(s.take(k)))
}

impl Toml {
    pub fn as_cargo(&self) -> (r: Option<&Cargo>)
        ensures
            match self {
                Toml::Cargo { cargo, .. } => r == Some(cargo),
                _ => r is None,
            },
    {
        match self {
            Toml::Cargo { cargo, .. } => Some(cargo),
            _ => None,
        }
    }

    pub fn as_lock(&self) -> (r: Option<&Lock>)
        ensures
            match self {
                Toml::Lock(l) => r == Some(l),
                _ => r is None,
            },
    {
        match self {
            Toml::Lock(lock) => Some(lock),
            _ => None,
        }
    }

    /// The text of the document.
    pub fn text(&self) -> (r: &str)
        ensures
            r@ == match self {
                Toml::Cargo { raw, .. } => raw.string@,
                Toml::Lock(l) => l.raw_content@,
            },
    {
        match self {
            Toml::Cargo { raw, .. } => raw.text(),
            Toml::Lock(lock) => lock.text(),
        }
    }

    /// The text of the document, to be changed in place; the rest of the
    /// document stays as it was.
    pub fn text_mut(&mut self) -> (r: &mut String)
        ensures
            *r == old(self).text_string(),
            *final(self) == old(self).with_text(*final(r)),
    {
        match self {
            Toml::Cargo { raw, .. } => raw.text_mut(),
            Toml::Lock(lock) => lock.text_mut(),
        }
    }

    /// The text of the document.
    pub open spec fn text_string(&self) -> String {
        match self {
            Toml::Cargo { raw, .. } => raw.string,
            Toml::Lock(l) => l.raw_content,
        }
    }

    /// The document with another text.
    pub open spec fn with_text(&self, s: String) -> Toml {
        match self {
            Toml::Cargo { cargo, raw } => Toml::Cargo {
                cargo: *cargo,
                raw: CargoRawData { string: s, tree: raw.tree },
            },
            Toml::Lock(l) => Toml::Lock(Lock { raw_data: l.raw_data, raw_content: s }),
        }
    }

    /// The editor range (line and column of each end) of a positioned item.
    pub fn to_range<T>(&self, pos: &Positioned<T>) -> (r: ((u32, u32), (u32, u32)))
        requires
            chars_in_bytes(self.text_string()@, pos.start as nat) is Some,
            chars_in_bytes(self.text_string()@, pos.end as nat) is Some,
            self.text_len() <= u32::MAX,
        ensures
            ({
                let s = self.text_string()@;
                let a = chars_in_bytes(s, pos.start as nat)->Some_0 as int;
                let b = chars_in_bytes(s, pos.end as nat)->Some_0 as int;
                r == ((position_of(s, a).0 as u32, position_of(s, a).1 as u32), (
                    position_of(s, b).0 as u32,
                    position_of(s, b).1 as u32,
                ))
            }),
    {
        let start = self.byte_offset_to_position(pos.start);
        let end = self.byte_offset_to_position(pos.end);
        (start, end)
    }

    /// Applies the editor's changes to the text, in order; the rest of the
    /// document stays as it was.
    pub fn update(&mut self, changes: &Vec<TextChange>)
        requires
            changes_ok(old(self).text_string()@, changes@),
        ensures
            final(self).text_string()@ == all_changed(old(self).text_string()@, changes@),
            *final(self) == old(self).with_text(final(self).text_string()),
    {
        let ghost start = self.text_string()@;
        let mut i: usize = 0;
        assert(changes@.skip(0) == changes@);
        while i < changes.len()
            invariant
                i <= changes@.len(),
                changes_ok(self.text_string()@, changes@.skip(i as int)),
                all_changed(start, changes@) == all_changed(self.text_string()@, changes@.skip(i as int)),
                *self == old(self).with_text(self.text_string()),
            decreases changes.len() - i,
        {
            assert(changes@.skip(i as int)[0] == changes@[i as int]);
            assert(changes@.skip(i as int).drop_first() == changes@.skip(i + 1));
            let next = apply_change(self.text(), &changes[i]);
            let t = self.text_mut();
            *t = next;
            i = i + 1;
        }
    }

    /// The upgrades the dependencies can take: for each with a version
    /// requirement, the newest of the versions known for it (`available`,
    /// by dependency) that is after the requirement; none for a lock file.
    pub fn needs_update(&self, available: &Vec<Vec<RustVersion>>) -> (r: Option<Vec<(usize, String)>>)
        requires
            self matches Toml::Cargo { cargo, .. } ==> available@.len() == cargo.positioned_info.dependencies@.len(),
        ensures
            match self {
                Toml::Cargo { cargo, .. } => r matches Some(v) && update_views(v@) == updates_of(
                    cargo.positioned_info.dependencies@,
                    versions_views(available@),
                    cargo.positioned_info.dependencies@.len(),
                ),
                Toml::Lock(_) => r is None,
            },
    {
        let deps = match self {
            Toml::Cargo { cargo, .. } => &cargo.positioned_info.dependencies,
            Toml::Lock(_) => {
                return None;
            },
        };
        let mut out: Vec<(usize, String)> = Vec::new();
        let mut i: usize = 0;
        while i < deps.len()
            invariant
                i <= deps@.len(),
                available@.len() == deps@.len(),
                update_views(out@) == updates_of(deps@, versions_views(available@), i as nat),
            decreases deps.len() - i,
        {
            let ghost before = out@;
            assert(versions_views(available@)[i as int] == version_views(available@[i as int]@));
            if let Source::Version { value, .. } = &deps[i].data.source {
                match newest_after(value.value.data.as_str(), &available[i]) {
                    Some(t) => {
                        out.push((i, t));
                        assert(update_views(out@) =~= update_views(before).push((i as int, out@[before.len() as int].1@)));
                    },
                    None => {},
                }
            }
            i = i + 1;
        }
        Some(out)
    }

    /// The paths of the workspace members; none for a lock file.
    pub fn get_members(&self) -> (r: Vec<String>)
        ensures
            match self {
                Toml::Cargo { cargo, .. } => match cargo.info.workspace {
                    crate::structure::Workspace::Workspace { members } => r@.len() == members@.len()
                        && forall|i: int| 0 <= i < members@.len() ==> (#[trigger] r@[i])@
                        == crate::structure::joined_path(cargo.path@, members@[i]@),
                    _ => r@.len() == 0,
                },
                Toml::Lock(_) => r@.len() == 0,
            },
    {
        match self {
            Toml::Cargo { cargo, .. } => cargo.get_members(),
            Toml::Lock(_) => Vec::new(),
        }
    }

    /// The first dependency whose range holds `byte_offset`.
    pub fn get_dependency(&self, byte_offset: u32) -> (r: Option<&Positioned<Dependency>>)
        ensures
            match self {
                Toml::Cargo { cargo, .. } => match first_holding(cargo.positioned_info.dependencies@, byte_offset) {
                    Some(i) => r == Some(&cargo.positioned_info.dependencies@[i]),
                    None => r is None,
                },
                _ => r is None,
            },
    {
        match self {
            Toml::Cargo { cargo, .. } => match find_holding(&cargo.positioned_info.dependencies, byte_offset) {
                Some(i) => Some(&cargo.positioned_info.dependencies[i]),
                None => None,
            },
            _ => None,
        }
    }

    /// The first feature whose range holds `byte_offset`.
    pub fn get_feature(&self, byte_offset: u32) -> (r: Option<&Positioned<Feature>>)
        ensures
            match self {
                Toml::Cargo { cargo, .. } => match first_holding(cargo.positioned_info.features@, byte_offset) {
                    Some(i) => r == Some(&cargo.positioned_info.features@[i]),
                    None => r is None,
                },
                _ => r is None,
            },
    {
        match self {
            Toml::Cargo { cargo, .. } => match find_holding(&cargo.positioned_info.features, byte_offset) {
                Some(i) => Some(&cargo.positioned_info.features[i]),
                None => None,
            },
            _ => None,
        }
    }

    /// The first dependency whose range meets `start..=end`.
    pub fn get_dependency_by_range(&self, start: u32, end: u32) -> (r: Option<&Positioned<Dependency>>)
        ensures
            match self {
                Toml::Cargo { cargo, .. } => match first_meeting(cargo.positioned_info.dependencies@, start, end) {
                    Some(i) => r == Some(&cargo.positioned_info.dependencies@[i]),
                    None => r is None,
                },
                _ => r is None,
            },
    {
        match self {
            Toml::Cargo { cargo, .. } => match find_meeting(&cargo.positioned_info.dependencies, start, end) {
                Some(i) => Some(&cargo.positioned_info.dependencies[i]),
                None => None,
            },
            _ => None,
        }
    }

    /// The line and column of a byte offset of the text.
    pub fn byte_offset_to_position(&self, byte_offset: u32) -> (r: (u32, u32))
        requires
            chars_in_bytes(
                match self {
                    Toml::Cargo { raw, .. } => raw.string@,
                    Toml::Lock(l) => l.raw_content@,
                },
                byte_offset as nat,
            ) is Some,
            self.text_len() <= u32::MAX,
        ensures
            ({
                let s = match self {
                    Toml::Cargo { raw, .. } => raw.string@,
                    Toml::Lock(l) => l.raw_content@,
                };
                let k = chars_in_bytes(s, byte_offset as nat)->Some_0 as int;
                r.0 == position_of(s, k).0 && r.1 == position_of(s, k).1
            }),
    {
        byte_offset_to_position(self.text(), byte_offset)
    }

    /// The number of characters of the text.
    pub open spec fn text_len(&self) -> nat {
        match self {
            Toml::Cargo { raw, .. } => raw.string@.len(),
            Toml::Lock(l) => l.raw_content@.len(),
        }
    }
}

/// The line and column of a byte offset of `text`: the line breaks before
/// it, and the characters since the last of them.
pub fn byte_offset_to_position(text: &str, byte_offset: u32) -> (r: (u32, u32))
    requires
        chars_in_bytes(text@, byte_offset as nat) is Some,
        text@.len() <= u32::MAX,
    ensures
        ({
            let k = chars_in_bytes(text@, byte_offset as nat)->Some_0 as int;
            r.0 == position_of(text@, k).0 && r.1 == position_of(text@, k).1
        }),
{
    let cs = chars_of(text);
    let k = chars_upto(&cs, byte_offset as usize);
    let mut line: u32 = 0;
    let mut col: u32 = 0;
    let mut i: usize = 0;
    while i < k
        invariant
            i <= k <= cs@.len(),
            cs@.len() <= u32::MAX,
            line == crate::position::newline_count(cs@.take(i as int)),
            col == chars_since_newline(cs@.take(i as int)),
            line <= i,
            col <= i,
        decreases k - i,
    {
        assert(cs@.take(i + 1).drop_last() == cs@.take(i as int));
        assert(cs@.take(i + 1).last() == cs@[i as int]);
        if cs[i] == '\n' {
            line = line + 1;
            col = 0;
        } else {
            col = col + 1;
        }
        i = i + 1;
    }
    (line, col)
}

/// The number of leading characters that take `n` bytes, which a
/// character boundary must end.
pub(crate) fn chars_upto(cs: &Vec<char>, n: usize) -> (r: usize)
    requires
        chars_in_bytes(cs@, n as nat) is Some,
    ensures
        r == chars_in_bytes(cs@, n as nat)->Some_0,
        r <= cs@.len(),
{
    let _len = cs.len();
    let mut k: usize = 0;
    let mut left: usize = n;
    assert(cs@.skip(0) == cs@);
    while left > 0
        invariant
            k <= cs@.len(),
            cs@.len() <= usize::MAX,
            chars_in_bytes(cs@.skip(k as int), left as nat) is Some,
            chars_in_bytes(cs@, n as nat)->Some_0 == k + chars_in_bytes(cs@.skip(k as int), left as nat)->Some_0,
        decreases left,
    {
        let ghost rest = cs@.skip(k as int);
        assert(rest[0] == cs@[k as int]);
        let w = crate::text::char_width(cs[k]);
        assert(rest.drop_first() == cs@.skip(k + 1));
        left = left - w;
        k = k + 1;
    }
    k
}


/// A change of the text that the editor sends: the range it replaces (lines
/// and columns of both ends), or the whole text when there is none.
pub struct TextChange {
    pub range: Option<((u32, u32), (u32, u32))>,
    pub text: String,
}

/// Whether the editor position can be turned into a byte offset without
/// passing the machine's limits.
pub open spec fn position_ok(s: Seq<char>, line: u32, character: u32) -> bool {
    &&& utf8_len(s) < usize::MAX
    &&& s.len() > 0 ==> match line_start(s, line as nat) {
        Some(v) => v + character <= usize::MAX,
        None => utf8_len(s) + character <= usize::MAX,
    }
    &&& s.len() > 0 ==> position_target(s, line, character) < s.len()
}

/// The character where an editor position points (0 in an empty text).
pub open spec fn char_at_position(s: Seq<char>, line: u32, character: u32) -> int {
    if s.len() == 0 {
        0
    } else {
        position_target(s, line, character)
    }
}

/// Whether a change can be applied: both ends can be read and the start is
/// not after the end.
pub open spec fn change_ok(s: Seq<char>, range: Option<((u32, u32), (u32, u32))>) -> bool {
    match range {
        None => true,
        Some(((l1, c1), (l2, c2))) => position_ok(s, l1, c1) && position_ok(s, l2, c2) && char_at_position(s, l1, c1)
            <= char_at_position(s, l2, c2),
    }
}

/// The text after a change: the new text in place of the range, or in place
/// of everything.
pub open spec fn changed(s: Seq<char>, range: Option<((u32, u32), (u32, u32))>, text: Seq<char>) -> Seq<char> {
    match range {
        None => text,
        Some(((l1, c1), (l2, c2))) => s.take(char_at_position(s, l1, c1)) + text + s.skip(
            char_at_position(s, l2, c2),
        ),
    }
}

/// Whether every change can be applied, each to the text the ones before
/// it left.
pub open spec fn changes_ok(s: Seq<char>, changes: Seq<TextChange>) -> bool
    decreases changes.len(),
{
    changes.len() == 0 || (change_ok(s, changes[0].range) && changes_ok(
        changed(s, changes[0].range, changes[0].text@),
        changes.drop_first(),
    ))
}

/// The text after every change, in order.
pub open spec fn all_changed(s: Seq<char>, changes: Seq<TextChange>) -> Seq<char>
    decreases changes.len(),
{
    if changes.len() == 0 {
        s
    } else {
        all_changed(changed(s, changes[0].range, changes[0].text@), changes.drop_first())
    }
}

proof fn lemma_width_positive(c: char)
    ensures
        utf8_len(seq![c]) >= 1,
{
    assert(vstd::utf8::encode_utf8(seq![c]) == vstd::utf8::encode_scalar(c as u32) + vstd::utf8::encode_utf8(
        seq![c].drop_first(),
    ));
}

/// The byte offset where the first `k` characters end is read back as `k`
/// characters.
pub proof fn lemma_chars_in_prefix(s: Seq<char>, k: int)
    requires
        0 <= k <= s.len(),
    ensures
        chars_in_bytes(s, utf8_len(s.take(k))) == Some(k as nat),
    decreases s.len(),
{
    if k == 0 {
        assert(s.take(0) =~= Seq::<char>::empty());
        assert(vstd::utf8::encode_utf8(Seq::<char>::empty()) =~= Seq::<u8>::empty());
    } else {
        let rest = s.drop_first();
        assert(s.take(k) =~= seq![s[0]] + rest.take(k - 1));
        crate::position::lemma_encode_concat(seq![s[0]], rest.take(k - 1));
        lemma_width_positive(s[0]);
        lemma_chars_in_prefix(rest, k - 1);
    }
}


/// Whether every character of the text takes one byte.
pub open spec fn one_byte_chars(s: Seq<char>) -> bool {
    forall|i: int| 0 <= i < s.len() ==> (#[trigger] s[i] as u32) < 128
}

/// In a text of one-byte characters, the first `k` take `k` bytes.
proof fn lemma_one_byte_len(s: Seq<char>, k: int)
    requires
        one_byte_chars(s),
        0 <= k <= s.len(),
    ensures
        utf8_len(s.take(k)) == k,
    decreases k,
{
    if k == 0 {
        assert(s.take(0) =~= Seq::<char>::empty());
        assert(vstd::utf8::encode_utf8(Seq::<char>::empty()) =~= Seq::<u8>::empty());
    } else {
        lemma_one_byte_len(s, k - 1);
        assert(s.take(k) =~= s.take(k - 1).push(s[k - 1]));
        crate::text::lemma_encode_push(s.take(k - 1), s[k - 1]);
        let c = s[k - 1];
        assert(vstd::utf8::encode_utf8(seq![c]) == vstd::utf8::encode_scalar(c as u32) + vstd::utf8::encode_utf8(
            seq![c].drop_first(),
        ));
        assert(seq![c].drop_first() =~= Seq::<char>::empty());
        assert(vstd::utf8::encode_utf8(Seq::<char>::empty()) =~= Seq::<u8>::empty());
    }
}

/// The characters since the last line break: none of them is one, and the
/// one before them is the last line break of the text.
proof fn lemma_last_break(t: Seq<char>)
    ensures
        chars_since_newline(t) <= t.len(),
        crate::position::newline_count(t) <= t.len(),
        chars_since_newline(t) < t.len() ==> t[t.len() - chars_since_newline(t) - 1] == '\n'
            && crate::position::newline_count(t.take(t.len() - chars_since_newline(t))) == crate::position::newline_count(t),
        chars_since_newline(t) == t.len() ==> crate::position::newline_count(t) == 0,
    decreases t.len(),
{
    if t.len() > 0 {
        let d = t.drop_last();
        lemma_last_break(d);
        if t.last() == '\n' {
            assert(t.take(t.len() as int) =~= t);
        } else {
            let c = chars_since_newline(d);
            if c < d.len() {
                assert(t.take(t.len() - chars_since_newline(t)) =~= d.take(d.len() - c));
            }
        }
    }
}

/// In a text whose characters each take one byte, the editor position (line
/// and column) of an offset inside the text leads back to that offset: the
/// offset ends as many characters as it has bytes, and the character that
/// the position picks is the one that starts there.
pub proof fn lemma_position_round_trip(s: Seq<char>, off: nat)
    requires
        one_byte_chars(s),
        off < s.len(),
        s.len() <= u32::MAX,
    ensures
        chars_in_bytes(s, off) == Some(off),
        position_of(s, off as int).0 <= u32::MAX,
        position_of(s, off as int).1 <= u32::MAX,
        position_target(s, position_of(s, off as int).0 as u32, position_of(s, off as int).1 as u32) == off,
        utf8_len(s.take(off as int)) == off,
{
    let t = s.take(off as int);
    let line = crate::position::newline_count(t);
    let col = chars_since_newline(t);
    lemma_one_byte_len(s, off as int);
    lemma_chars_in_prefix(s, off as int);
    lemma_one_byte_len(s, s.len() as int);
    assert(s.take(s.len() as int) =~= s);
    lemma_last_break(t);
    if col < off {
        let p = off - col - 1;
        assert(s[p] == t[p]);
        assert(s.take(p + 1) =~= t.take(off - col));
        let u = t.take(off - col);
        assert(u.last() == '\n');
        assert(crate::position::newline_count(u) >= 1);
        crate::position::lemma_nth_found(s, p, line);
        lemma_one_byte_len(s, p);
    }
}

/// Whatever came before, a change without a range leaves exactly its text:
/// the document then reads back what that change wrote, and later changes
/// start from it.
pub proof fn lemma_whole_text_change(s: Seq<char>, changes: Seq<TextChange>, i: int)
    requires
        0 <= i < changes.len(),
        changes[i].range is None,
    ensures
        all_changed(s, changes) == all_changed(changes[i].text@, changes.skip(i + 1)),
    decreases changes.len(),
{
    if i > 0 {
        let rest = changes.drop_first();
        assert(rest[i - 1] == changes[i]);
        assert(rest.skip(i) == changes.skip(i + 1));
        lemma_whole_text_change(changed(s, changes[0].range, changes[0].text@), rest, i - 1);
    } else {
        assert(changes.drop_first() == changes.skip(1));
    }
}

/// Replaces the characters `a..b` of the text with `text`.
fn replace_chars(s: &str, a: usize, b: usize, text: &str) -> (r: String)
    requires
        a <= b <= s@.len(),
    ensures
        r@ == s@.take(a as int) + text@ + s@.skip(b as int),
{
    let cs = chars_of(s);
    let mut out: Vec<char> = Vec::new();
    let mut i: usize = 0;
    while i < a
        invariant
            i <= a <= cs@.len(),
            out@ == cs@.take(i as int),
        decreases a - i,
    {
        out.push(cs[i]);
        i = i + 1;
        assert(out@ =~= cs@.take(i as int));
    }
    let ghost head = out@;
    push_str(&mut out, text);
    let mut j: usize = b;
    while j < cs.len()
        invariant
            b <= j <= cs@.len(),
            out@ == head + text@ + cs@.subrange(b as int, j as int),
        decreases cs.len() - j,
    {
        out.push(cs[j]);
        j = j + 1;
        assert(out@ =~= head + text@ + cs@.subrange(b as int, j as int));
    }
    assert(cs@.subrange(b as int, cs@.len() as int) =~= cs@.skip(b as int));
    string_from(&out)
}

/// The text after one change (see `changed`).
pub fn apply_change(s: &str, change: &TextChange) -> (r: String)
    requires
        change_ok(s@, change.range),
    ensures
        r@ == changed(s@, change.range, change.text@),
{
    match change.range {
        Some(((l1, c1), (l2, c2))) => {
            let start = get_byte_index_from_position(s, l1, c1);
            let end = get_byte_index_from_position(s, l2, c2);
            let cs = chars_of(s);
            proof {
                if s@.len() > 0 {
                    lemma_chars_in_prefix(s@, position_target(s@, l1, c1));
                    lemma_chars_in_prefix(s@, position_target(s@, l2, c2));
                }
            }
            let a = chars_upto(&cs, start);
            let b = chars_upto(&cs, end);
            replace_chars(s, a, b, change.text.as_str())
        },
        None => owned(change.text.as_str()),
    }
}

/// The last of `vs` with the greatest version.
pub open spec fn last_greatest(vs: Seq<VersionView>) -> Option<int>
    decreases vs.len(),
{
    if vs.len() == 0 {
        None
    } else {
        match last_greatest(vs.drop_last()) {
            None => Some(vs.len() - 1),
            Some(j) => if version_order(vs.last(), vs[j]) >= 0 {
                Some(vs.len() - 1)
            } else {
                Some(j)
            },
        }
    }
}


/// The version `last_greatest` picks is one of the list, and none of the
/// list is greater.
pub proof fn lemma_last_greatest_is_max(vs: Seq<VersionView>)
    ensures
        last_greatest(vs) is None <==> vs.len() == 0,
        last_greatest(vs) matches Some(j) ==> 0 <= j < vs.len() && forall|k: int|
            0 <= k < vs.len() ==> version_order(#[trigger] vs[k], vs[j]) <= 0,
    decreases vs.len(),
{
    if vs.len() > 0 {
        let init = vs.drop_last();
        lemma_last_greatest_is_max(init);
        crate::rust_version::lemma_version_order_antisymmetric(vs.last(), vs.last());
        match last_greatest(init) {
            None => {
                assert(vs.len() == 1);
            },
            Some(j) => {
                crate::rust_version::lemma_version_order_antisymmetric(vs.last(), init[j]);
                assert forall|k: int| 0 <= k < vs.len() implies version_order(#[trigger] vs[k], vs[last_greatest(vs)->Some_0]) <= 0 by {
                    crate::rust_version::lemma_version_order_antisymmetric(vs[k], vs[k]);
                    if k < vs.len() - 1 {
                        assert(vs[k] == init[k]);
                        if version_order(vs.last(), init[j]) >= 0 {
                            crate::rust_version::lemma_version_order_antisymmetric(init[j], vs.last());
                            crate::rust_version::lemma_version_order_transitive(vs[k], init[j], vs.last());
                        }
                    } else if version_order(vs.last(), init[j]) < 0 {
                        crate::rust_version::lemma_version_order_antisymmetric(vs.last(), init[j]);
                    }
                }
            },
        }
    }
}

/// What an upgrade writes is the text of an available version after the
/// requirement, and no available version is greater than it; when nothing
/// is written, the requirement is no version or no available version is
/// after it.
pub proof fn lemma_upgrade_is_newest(current: Seq<char>, available: Seq<VersionView>)
    ensures
        upgrade_target(current, available) matches Some(t) ==> parse_version(current) is Ok && exists|j: int|
            0 <= j < available.len() && #[trigger] version_text(available[j]) == t && version_order(
                available[j],
                parse_version(current)->Ok_0,
            ) > 0 && forall|k: int|
                0 <= k < available.len() && version_order(#[trigger] available[k], parse_version(current)->Ok_0) > 0
                    ==> version_order(available[k], available[j]) <= 0,
        upgrade_target(current, available) is None ==> parse_version(current) is Err || forall|k: int|
            0 <= k < available.len() ==> version_order(#[trigger] available[k], parse_version(current)->Ok_0) <= 0,
{
    if let Ok(cur) = parse_version(current) {
        let pred = |v: VersionView| version_order(v, cur) > 0;
        let later = available.filter(pred);
        lemma_last_greatest_is_max(later);
        available.filter_lemma(pred);
        match last_greatest(later) {
            Some(i) => {
                let w = later[i];
                assert(later.contains(w));
                available.lemma_filter_contains_rev(pred, w);
                let j = choose|j: int| 0 <= j < available.len() && available[j] == w;
                assert(version_text(available[j]) == version_text(later[i]));
                assert forall|k: int| 0 <= k < available.len() && version_order(#[trigger] available[k], cur) > 0 implies version_order(
                    available[k],
                    available[j],
                ) <= 0 by {
                    assert(later.contains(available[k]));
                    let m = choose|m: int| 0 <= m < later.len() && later[m] == available[k];
                    assert(0 <= m < later.len());
                    assert(version_order(later[m], later[i]) <= 0);
                }
            },
            None => {
                assert forall|k: int| 0 <= k < available.len() implies version_order(#[trigger] available[k], cur) <= 0 by {
                    if version_order(available[k], cur) > 0 {
                        assert(later.contains(available[k]));
                    }
                }
            },
        }
    }
}

pub open spec fn version_views(vs: Seq<RustVersion>) -> Seq<VersionView> {
    vs.map_values(|v: RustVersion| v@)
}


/// The upgrades of the first `n` dependencies: for each with a version
/// requirement that has an upgrade target, its index and that target.
pub open spec fn updates_of(deps: Seq<Positioned<Dependency>>, available: Seq<Seq<VersionView>>, n: nat) -> Seq<(int, Seq<char>)>
    decreases n,
{
    if n == 0 {
        seq![]
    } else {
        let prev = updates_of(deps, available, (n - 1) as nat);
        match deps[n - 1].data.source {
            Source::Version { value, .. } => match upgrade_target(value.value.data@, available[n - 1]) {
                Some(t) => prev.push((n - 1, t)),
                None => prev,
            },
            _ => prev,
        }
    }
}

pub open spec fn update_views(v: Seq<(usize, String)>) -> Seq<(int, Seq<char>)> {
    v.map_values(|x: (usize, String)| (x.0 as int, x.1@))
}

pub open spec fn versions_views(a: Seq<Vec<RustVersion>>) -> Seq<Seq<VersionView>> {
    a.map_values(|v: Vec<RustVersion>| version_views(v@))
}

/// The greatest of the versions (the last among equals), by index.
pub fn max_version(vs: &Vec<RustVersion>) -> (r: Option<usize>)
    ensures
        r matches Some(b) ==> b < vs@.len() && last_greatest(version_views(vs@)) == Some(b as int),
        r is None ==> last_greatest(version_views(vs@)) is None,
{
    let mut best: Option<usize> = None;
    let mut i: usize = 0;
    while i < vs.len()
        invariant
            i <= vs@.len(),
            best matches Some(b) ==> b < i && last_greatest(version_views(vs@.take(i as int))) == Some(b as int),
            best is None ==> last_greatest(version_views(vs@.take(i as int))) is None,
        decreases vs.len() - i,
    {
        assert(version_views(vs@.take(i + 1)).drop_last() =~= version_views(vs@.take(i as int)));
        assert(version_views(vs@.take(i + 1)).last() == vs@[i as int]@);
        best = match best {
            None => Some(i),
            Some(b) => {
                proof { crate::rust_version::lemma_version_order_antisymmetric(vs@[b as int]@, vs@[i as int]@); }
                assert(version_views(vs@.take(i + 1))[b as int] == vs@[b as int]@);
                if !vs[b].gt(&vs[i]) {
                    Some(i)
                } else {
                    Some(b)
                }
            },
        };
        i = i + 1;
    }
    assert(vs@.take(vs@.len() as int) == vs@);
    best
}

/// What an upgrade writes: the greatest of the versions after the
/// requirement (the last among equals), as text; nothing when the
/// requirement is no version or none is after it.
pub open spec fn upgrade_target(current: Seq<char>, available: Seq<VersionView>) -> Option<Seq<char>> {
    match parse_version(current) {
        Ok(cur) => match last_greatest(available.filter(|v: VersionView| version_order(v, cur) > 0)) {
            Some(i) => Some(version_text(available.filter(|v: VersionView| version_order(v, cur) > 0)[i])),
            None => None,
        },
        Err(_) => None,
    }
}

/// The version that a dependency can be upgraded to (see `upgrade_target`).
pub fn newest_after(current: &str, available: &Vec<RustVersion>) -> (r: Option<String>)
    ensures
        match upgrade_target(current@, version_views(available@)) {
            Some(t) => r matches Some(x) && x@ == t,
            None => r is None,
        },
{
    let cur = match RustVersion::try_from(current) {
        Ok(v) => v,
        Err(_) => {
            return None;
        },
    };
    let ghost pred = |v: VersionView| version_order(v, cur@) > 0;
    let mut later: Vec<RustVersion> = Vec::new();
    let mut i: usize = 0;
    while i < available.len()
        invariant
            i <= available@.len(),
            pred == (|v: VersionView| version_order(v, cur@) > 0),
            version_views(later@) == version_views(available@).take(i as int).filter(pred),
        decreases available.len() - i,
    {
        proof {
            assert(version_views(available@).take(i + 1) == version_views(available@).take(i as int).push(
                available@[i as int]@,
            ));
            version_views(available@).take(i as int).lemma_filter_push(available@[i as int]@, pred);
        }
        if available[i].gt(&cur) {
            let ghost before = later@;
            later.push(available[i].clone_version());
            assert(version_views(later@) =~= version_views(before).push(available@[i as int]@));
        }
        i = i + 1;
    }
    assert(version_views(available@).take(available@.len() as int) == version_views(available@));
    match max_version(&later) {
        Some(b) => Some(later[b].to_string()),
        None => None,
    }
}

/// What the checks of one dependency find, at its version requirement: a
/// newer version when the greatest known one is after the requirement (or
/// the requirement is no version), no known versions, unknown features, or
/// no known features for that version.
pub open spec fn version_notes(
    name: Seq<char>,
    version: Seq<char>,
    newest: Option<VersionView>,
    features: Option<Seq<Seq<char>>>,
    requested: Seq<Seq<char>>,
) -> Seq<Seq<char>> {
    let first: Seq<Seq<char>> = match newest {
        Some(new) => if (parse_version(version) matches Ok(v) ==> version_order(new, v) > 0) {
            seq!["A newer version is available for crate `"@ + name + "`: "@ + version_text(new) + " "@]
        } else {
            seq![]
        },
        None => seq!["couldnt find version for crate `"@ + name],
    };
    let second: Seq<Seq<char>> = match features {
        Some(known) => unknown_feature_notes(name, known, requested),
        None => seq!["Unknown version for crate `"@ + name + "` "@],
    };
    first + second
}

/// A note for each requested feature that `known` does not hold.
pub open spec fn unknown_feature_notes(name: Seq<char>, known: Seq<Seq<char>>, requested: Seq<Seq<char>>) -> Seq<Seq<char>>
    decreases requested.len(),
{
    if requested.len() == 0 {
        seq![]
    } else {
        let rest = unknown_feature_notes(name, known, requested.drop_last());
        let f = requested.last();
        if known.contains(f) {
            rest
        } else {
            rest.push("Unknown feature `"@ + f + "` for crate `"@ + name + "`"@)
        }
    }
}

pub open spec fn feature_texts(fs: Seq<Positioned<String>>) -> Seq<Seq<char>> {
    fs.map_values(|f: Positioned<String>| f.data@)
}

fn contains_string(items: &Vec<String>, t: &str) -> (r: bool)
    ensures
        r == crate::info_api::string_views(items@).contains(t@),
{
    let mut i: usize = 0;
    while i < items.len()
        invariant
            i <= items@.len(),
            forall|k: int| 0 <= k < i ==> (#[trigger] items@[k])@ != t@,
        decreases items.len() - i,
    {
        if same_text(items[i].as_str(), t) {
            assert(crate::info_api::string_views(items@)[i as int] == t@);
            return true;
        }
        i = i + 1;
    }
    assert(!crate::info_api::string_views(items@).contains(t@)) by {
        if crate::info_api::string_views(items@).contains(t@) {
            let k = choose|k: int| 0 <= k < items@.len() && crate::info_api::string_views(items@)[k] == t@;
            assert(items@[k]@ == t@);
        }
    }
    false
}

/// The notes on a dependency with a version requirement (see
/// `version_notes`); `newest` is the greatest version known, `features` the
/// features known for the required version. Nothing for a dependency
/// without one.
pub fn dependency_notes(dep: &Dependency, newest: Option<&RustVersion>, features: Option<&Vec<String>>) -> (r: Vec<String>)
    ensures
        match dep.source {
            Source::Version { value, .. } => crate::info_api::string_views(r@) == version_notes(
                dep.name.data@,
                value.value.data@,
                match newest { Some(n) => Some(n@), None => None },
                match features { Some(f) => Some(crate::info_api::string_views(f@)), None => None },
                feature_texts(dep.features@),
            ),
            _ => r@.len() == 0,
        },
{
    let version = match &dep.source {
        Source::Version { value, .. } => &value.value,
        _ => {
            return Vec::new();
        },
    };
    let name = dep.name.data.as_str();
    let mut out: Vec<String> = Vec::new();
    match newest {
        Some(new) => {
            let newer = match RustVersion::try_from(version.data.as_str()) {
                Ok(v) => new.gt(&v),
                Err(_) => true,
            };
            if newer {
                let mut m = chars_of("A newer version is available for crate `");
                push_str(&mut m, name);
                push_str(&mut m, "`: ");
                push_str(&mut m, new.to_string().as_str());
                push_str(&mut m, " ");
                out.push(string_from(&m));
            }
        },
        None => {
            let mut m = chars_of("couldnt find version for crate `");
            push_str(&mut m, name);
            out.push(string_from(&m));
        },
    }
    let ghost first = crate::info_api::string_views(out@);
    match features {
        Some(known) => {
            let fs = &dep.features;
            let mut i: usize = 0;
            while i < fs.len()
                invariant
                    i <= fs@.len(),
                    *fs == dep.features,
                    crate::info_api::string_views(out@) == first + unknown_feature_notes(
                        name@,
                        crate::info_api::string_views(known@),
                        feature_texts(fs@).take(i as int),
                    ),
                decreases fs.len() - i,
            {
                assert(feature_texts(fs@).take(i + 1).drop_last() == feature_texts(fs@).take(i as int));
                assert(feature_texts(fs@).take(i + 1).last() == fs@[i as int].data@);
                let ghost before = out@;
                assert(crate::info_api::string_views(before).len() == before.len());
                if !contains_string(known, fs[i].data.as_str()) {
                    let mut m = chars_of("Unknown feature `");
                    push_str(&mut m, fs[i].data.as_str());
                    push_str(&mut m, "` for crate `");
                    push_str(&mut m, name);
                    push_str(&mut m, "`");
                    let note = string_from(&m);
                    out.push(note);
                    assert(crate::info_api::string_views(out@) =~= crate::info_api::string_views(before).push(note@));
                }
                i = i + 1;
            }
            assert(feature_texts(fs@).take(fs@.len() as int) == feature_texts(fs@));
        },
        None => {
            let mut m = chars_of("Unknown version for crate `");
            push_str(&mut m, name);
            push_str(&mut m, "` ");
            let note = string_from(&m);
            let ghost before = out@;
            out.push(note);
            assert(crate::info_api::string_views(out@) =~= crate::info_api::string_views(before).push(note@));
        },
    }
    out
}

/// The quick fixes of a dependency written in the positioned model: for a
/// bare name, the text that makes it inherit from the workspace; for a
/// registry version, switching between the short form and the inline table.
pub fn workspace_shortcut(dep: &Positioned<Dependency>) -> (r: Option<String>)
    ensures
        dep.data.name.end == dep.end ==> (r matches Some(t) && t@ == " = { workspace = true }"@),
        dep.data.name.end != dep.end ==> r is None,
{
    if dep.data.name.end == dep.end {
        Some(owned(" = { workspace = true }"))
    } else {
        None
    }
}

/// The action that switches a registry version between `name = "v"` and
/// `name = { version = "v" }`: its title and the text after the name.
pub fn specification_action(dep: &Dependency) -> (r: Option<(String, String)>)
    ensures
        match dep.source {
            Source::Version { value, .. } => (r matches Some((t, x)) && if value.key is None {
                t@ == "Expand dependency specification"@ && x@ == " = { version = \""@ + value.value.data@ + "\" }"@
            } else {
                t@ == "Collapse dependency specification"@ && x@ == " = \""@ + value.value.data@ + "\""@
            }),
            _ => r is None,
        },
{
    match &dep.source {
        Source::Version { value, .. } => {
            if value.key.is_none() {
                let mut x = chars_of(" = { version = \"");
                push_str(&mut x, value.value.data.as_str());
                push_str(&mut x, "\" }");
                Some((owned("Expand dependency specification"), string_from(&x)))
            } else {
                let mut x = chars_of(" = \"");
                push_str(&mut x, value.value.data.as_str());
                push_str(&mut x, "\"");
                Some((owned("Collapse dependency specification"), string_from(&x)))
            }
        },
        _ => None,
    }
}

/// The documentation and crates.io pages of a crate.
pub fn crate_links(name: &str) -> (r: (String, String))
    ensures
        r.0@ == "https://docs.rs/"@ + name@ + "/latest/"@ + name@ + "/"@,
        r.1@ == "https://crates.io/crates/"@ + name@ + "/"@,
{
    let mut docs = chars_of("https://docs.rs/");
    push_str(&mut docs, name);
    push_str(&mut docs, "/latest/");
    push_str(&mut docs, name);
    push_str(&mut docs, "/");
    let mut io = chars_of("https://crates.io/crates/");
    push_str(&mut io, name);
    push_str(&mut io, "/");
    (string_from(&docs), string_from(&io))
}

} // verus!
