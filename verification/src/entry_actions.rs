//! The code actions offered on a dependency entry: edits of the text (with
//! their line and column ranges), pages to open, and editor commands; and
//! the upgrades that the registry's versions allow.
use vstd::prelude::*;
use crate::document::{byte_offset_to_position, position_of};
use crate::lock::chars_in_bytes;
use crate::document::{newest_after, upgrade_target, version_views, versions_views};
use crate::generate_tree::{nodes_found, value_range_of, Tree, TreeValue, Value};
use crate::positioned::{Dependency, Positioned};
use crate::raw::RangeExclusive;
use crate::rust_version::{parse_version, RustVersion, VersionView};
use crate::text::{chars_of, owned, push_str, same_text, string_from};

verus! {

/// Whether byte offset `b` ends a character of `s`.
pub open spec fn boundary(s: Seq<char>, b: u32) -> bool {
    chars_in_bytes(s, b as nat) is Some
}

/// The line and column of byte offset `b` of `s`.
pub open spec fn at(s: Seq<char>, b: u32) -> (nat, nat) {
    position_of(s, chars_in_bytes(s, b as nat)->Some_0 as int)
}

/// A replacement of the text between two positions (line, column).
pub struct LineEdit {
    pub start: (u32, u32),
    pub end: (u32, u32),
    pub text: String,
}

/// The mathematical value of a [`LineEdit`].
pub struct EditView {
    pub start: (int, int),
    pub end: (int, int),
    pub text: Seq<char>,
}

impl View for LineEdit {
    type V = EditView;

    open spec fn view(&self) -> EditView {
        EditView {
            start: (self.start.0 as int, self.start.1 as int),
            end: (self.end.0 as int, self.end.1 as int),
            text: self.text@,
        }
    }
}

pub open spec fn edit_views(v: Seq<LineEdit>) -> Seq<EditView> {
    v.map_values(|e: LineEdit| e@)
}

/// A code action on a dependency entry.
pub enum EntryAction {
    /// Applies the edits.
    Edit { title: String, edits: Vec<LineEdit> },
    /// Opens `url`.
    OpenUrl { title: String, url: String },
    /// Runs an editor command.
    Command { title: String, command: String },
}

/// The mathematical value of an [`EntryAction`].
pub enum EntryView {
    Edit { title: Seq<char>, edits: Seq<EditView> },
    OpenUrl { title: Seq<char>, url: Seq<char> },
    Command { title: Seq<char>, command: Seq<char> },
}

impl View for EntryAction {
    type V = EntryView;

    open spec fn view(&self) -> EntryView {
        match self {
            EntryAction::Edit { title, edits } => EntryView::Edit { title: title@, edits: edit_views(edits@) },
            EntryAction::OpenUrl { title, url } => EntryView::OpenUrl { title: title@, url: url@ },
            EntryAction::Command { title, command } => EntryView::Command { title: title@, command: command@ },
        }
    }
}

pub open spec fn action_views(v: Seq<EntryAction>) -> Seq<EntryView> {
    v.map_values(|a: EntryAction| a@)
}

/// An upgrade the registry allows: the crate, the byte range the edit is
/// placed by, and the new version.
pub struct Upgrade {
    pub name: String,
    pub start: u32,
    pub end: u32,
    pub version: String,
}

/// Whether the edit of an upgrade can be placed: both ends are character
/// boundaries, the start's column can grow by one and the end's shrink by
/// one.
pub open spec fn trim_ok(s: Seq<char>, u: Upgrade) -> bool {
    &&& boundary(s, u.start)
    &&& boundary(s, u.end)
    &&& at(s, u.start).1 < u32::MAX
    &&& at(s, u.end).1 >= 1
}

/// The edit of an upgrade: its range one column inside each end (inside
/// the quotes of a string), replaced by the new version.
pub open spec fn trimmed(s: Seq<char>, u: Upgrade) -> EditView {
    EditView {
        start: (at(s, u.start).0 as int, (at(s, u.start).1 + 1) as int),
        end: (at(s, u.end).0 as int, at(s, u.end).1 - 1),
        text: u.version@,
    }
}

pub open spec fn all_trim_ok(s: Seq<char>, us: Seq<Upgrade>) -> bool {
    forall|i: int| 0 <= i < us.len() ==> trim_ok(s, #[trigger] us[i])
}

/// The first upgrade of the crate `name`.
pub open spec fn first_named(us: Seq<Upgrade>, name: Seq<char>) -> Option<int>
    decreases us.len(),
{
    if us.len() == 0 {
        None
    } else if us[0].name@ == name {
        Some(0)
    } else {
        match first_named(us.drop_first(), name) {
            Some(i) => Some(i + 1),
            None => None,
        }
    }
}

/// The actions after the upgrades are added to `before`: when there are
/// upgrades, the one of the crate `name` first (if any), then `before`,
/// then all of them in one edit; in every case the update command last.
pub open spec fn with_upgrades(
    s: Seq<char>,
    before: Seq<EntryView>,
    name: Seq<char>,
    us: Seq<Upgrade>,
    command: Seq<char>,
) -> Seq<EntryView> {
    let mid = if us.len() == 0 {
        before
    } else {
        let head: Seq<EntryView> = match first_named(us, name) {
            Some(i) => seq![EntryView::Edit { title: "Upgrade"@, edits: seq![trimmed(s, us[i])] }],
            None => seq![],
        };
        head + before + seq![EntryView::Edit { title: "Upgrade All"@, edits: us.map_values(|u: Upgrade| trimmed(s, u)) }]
    };
    mid.push(EntryView::Command { title: "Update All"@, command })
}

/// The edit of one upgrade (see `trimmed`).
pub fn trimmed_edit(text: &str, u: &Upgrade) -> (r: LineEdit)
    requires
        text@.len() <= u32::MAX,
        trim_ok(text@, *u),
    ensures
        r@ == trimmed(text@, *u),
{
    let (l0, c0) = byte_offset_to_position(text, u.start);
    let (l1, c1) = byte_offset_to_position(text, u.end);
    LineEdit { start: (l0, c0 + 1), end: (l1, c1 - 1), text: u.version.clone() }
}

fn find_named(us: &Vec<Upgrade>, name: &str) -> (r: Option<usize>)
    ensures
        r matches Some(i) ==> i < us@.len() && first_named(us@, name@) == Some(i as int),
        r is None ==> first_named(us@, name@) is None,
{
    let mut i: usize = 0;
    assert(us@.skip(0) == us@);
    while i < us.len()
        invariant
            i <= us@.len(),
            first_named(us@, name@) == match first_named(us@.skip(i as int), name@) {
                Some(j) => Some(j + i),
                None => None::<int>,
            },
        decreases us.len() - i,
    {
        assert(us@.skip(i as int).drop_first() == us@.skip(i + 1));
        if same_text(us[i].name.as_str(), name) {
            return Some(i);
        }
        i = i + 1;
    }
    None
}

/// Adds the upgrade actions and the update command to `actions` (see
/// `with_upgrades`); `command` is the command the editor runs for updating.
pub fn add_upgrades(actions: Vec<EntryAction>, text: &str, name: &str, upgrades: &Vec<Upgrade>, command: &str) -> (r: Vec<EntryAction>)
    requires
        text@.len() <= u32::MAX,
        all_trim_ok(text@, upgrades@),
    ensures
        action_views(r@) == with_upgrades(text@, action_views(actions@), name@, upgrades@, command@),
{
    let mut out = actions;
    let ghost before = action_views(out@);
    if upgrades.len() > 0 {
        let ghost head: Seq<EntryView> = match first_named(upgrades@, name@) {
            Some(i) => seq![EntryView::Edit { title: "Upgrade"@, edits: seq![trimmed(text@, upgrades@[i])] }],
            None => seq![],
        };
        match find_named(upgrades, name) {
            Some(i) => {
                assert(trim_ok(text@, upgrades@[i as int]));
                let e = trimmed_edit(text, &upgrades[i]);
                let mut edits: Vec<LineEdit> = Vec::new();
                edits.push(e);
                assert(edit_views(edits@) =~= seq![trimmed(text@, upgrades@[i as int])]);
                out.insert(0, EntryAction::Edit { title: owned("Upgrade"), edits });
                assert(action_views(out@) =~= head + before);
            },
            None => {
                assert(action_views(out@) =~= head + before);
            },
        }
        let ghost mid = action_views(out@);
        let mut all: Vec<LineEdit> = Vec::new();
        let mut j: usize = 0;
        while j < upgrades.len()
            invariant
                j <= upgrades@.len(),
                text@.len() <= u32::MAX,
                all_trim_ok(text@, upgrades@),
                edit_views(all@) == upgrades@.take(j as int).map_values(|u: Upgrade| trimmed(text@, u)),
            decreases upgrades.len() - j,
        {
            assert(trim_ok(text@, upgrades@[j as int]));
            let e = trimmed_edit(text, &upgrades[j]);
            let ghost prev = all@;
            all.push(e);
            assert(upgrades@.take(j + 1) =~= upgrades@.take(j as int).push(upgrades@[j as int]));
            assert(edit_views(all@) =~= edit_views(prev).push(e@));
            assert(upgrades@.take(j + 1).map_values(|u: Upgrade| trimmed(text@, u)) =~= upgrades@.take(
                j as int,
            ).map_values(|u: Upgrade| trimmed(text@, u)).push(trimmed(text@, upgrades@[j as int])));
            j = j + 1;
        }
        assert(upgrades@.take(upgrades@.len() as int) =~= upgrades@);
        let a = EntryAction::Edit { title: owned("Upgrade All"), edits: all };
        out.push(a);
        assert(action_views(out@) =~= mid.push(a@));
    }
    let ghost mid2 = action_views(out@);
    let c = EntryAction::Command { title: owned("Update All"), command: owned(command) };
    out.push(c);
    assert(action_views(out@) =~= mid2.push(c@));
    out
}

/// The byte range of an entry of the tree: its key, widened by its value
/// where the value is a string or a bool.
pub open spec fn entry_span(t: TreeValue) -> (u32, u32) {
    match value_range_of(t.value) {
        Some(r) => (
            if r.start < t.key.range.start { r.start } else { t.key.range.start },
            if r.end > t.key.range.end { r.end } else { t.key.range.end },
        ),
        None => (t.key.range.start, t.key.range.end),
    }
}

/// The first entry whose range meets `start..=end`.
pub open spec fn first_entry_meeting(items: Seq<TreeValue>, start: u32, end: u32) -> Option<int>
    decreases items.len(),
{
    if items.len() == 0 {
        None
    } else if entry_span(items[0]).0 <= end && start <= entry_span(items[0]).1 {
        Some(0)
    } else {
        match first_entry_meeting(items.drop_first(), start, end) {
            Some(i) => Some(i + 1),
            None => None,
        }
    }
}

/// The first entry of a table keyed `version`, when its value is a string:
/// that string and its range.
pub open spec fn version_in(nodes: Seq<TreeValue>) -> Option<(Seq<char>, RangeExclusive)>
    decreases nodes.len(),
{
    if nodes.len() == 0 {
        None
    } else if nodes[0].key.value@ == "version"@ {
        match nodes[0].value {
            Value::String { value, range } => Some((value@, range)),
            _ => None,
        }
    } else {
        version_in(nodes.drop_first())
    }
}

/// The version requirement of a dependency entry and its range: the string
/// itself, or in an inline table the string under `version`.
pub open spec fn entry_version(t: TreeValue) -> Option<(Seq<char>, RangeExclusive)> {
    match t.value {
        Value::String { value, range } => Some((value@, range)),
        Value::Tree(tree) => version_in(tree.0@),
        _ => None,
    }
}

/// The entries the references point to.
pub open spec fn derefs(v: Seq<&TreeValue>) -> Seq<TreeValue> {
    v.map_values(|x: &TreeValue| *x)
}

fn find_entry(items: &Vec<&TreeValue>, start: u32, end: u32) -> (r: Option<usize>)
    ensures
        r matches Some(i) ==> i < items@.len() && first_entry_meeting(derefs(items@), start, end) == Some(i as int),
        r is None ==> first_entry_meeting(derefs(items@), start, end) is None,
{
    let ghost s = derefs(items@);
    let mut i: usize = 0;
    assert(s.skip(0) == s);
    while i < items.len()
        invariant
            i <= items@.len(),
            s == derefs(items@),
            first_entry_meeting(s, start, end) == match first_entry_meeting(s.skip(i as int), start, end) {
                Some(j) => Some(j + i),
                None => None::<int>,
            },
        decreases items.len() - i,
    {
        assert(s.skip(i as int).drop_first() == s.skip(i + 1));
        let t: &TreeValue = items[i];
        assert(s.skip(i as int)[0] == *t);
        let mut lo = t.key.range.start;
        let mut hi = t.key.range.end;
        if let Some(r) = t.value.range() {
            if r.start < lo {
                lo = r.start;
            }
            if r.end > hi {
                hi = r.end;
            }
        }
        if lo <= end && start <= hi {
            return Some(i);
        }
        i = i + 1;
    }
    None
}

/// The entries of a table value; none for another value.
pub open spec fn table_of(v: Value) -> Seq<TreeValue> {
    match v {
        Value::Tree(t) => t.0@,
        _ => seq![],
    }
}

/// The entries of the tables among `found`, in order.
pub open spec fn tables_entries(found: Seq<TreeValue>) -> Seq<TreeValue>
    decreases found.len(),
{
    if found.len() == 0 {
        seq![]
    } else {
        tables_entries(found.drop_last()) + table_of(found.last().value)
    }
}

/// The dependency entries of a manifest's tree: the entries of every table
/// found under `dependencies`, then of every one under `dev-dependencies`
/// (see `Tree::find`).
pub open spec fn dependency_entries_of(tree: Tree) -> Seq<TreeValue> {
    tables_entries(nodes_found(tree.0@, 0, "dependencies"@) + nodes_found(tree.0@, 0, "dev-dependencies"@))
}

/// The dependency entries of a manifest's tree (see `dependency_entries_of`).
pub fn dependency_entries<'a>(tree: &'a Tree) -> (r: Vec<&'a TreeValue>)
    ensures
        derefs(r@) == dependency_entries_of(*tree),
{
    let mut found = tree.find("dependencies");
    let mut dev = tree.find("dev-dependencies");
    let ghost a = derefs(found@);
    let ghost b = derefs(dev@);
    found.append(&mut dev);
    let ghost all = derefs(found@);
    assert(all =~= a + b);
    let mut out: Vec<&'a TreeValue> = Vec::new();
    let mut i: usize = 0;
    while i < found.len()
        invariant
            i <= found@.len(),
            all == derefs(found@),
            derefs(out@) == tables_entries(all.take(i as int)),
        decreases found.len() - i,
    {
        let item: &'a TreeValue = found[i];
        assert(all.take(i + 1).drop_last() =~= all.take(i as int));
        assert(all.take(i + 1).last() == *item);
        if let Value::Tree(t) = &item.value {
            let mut k: usize = 0;
            let ghost base = derefs(out@);
            while k < t.0.len()
                invariant
                    k <= t.0@.len(),
                    derefs(out@) == base + t.0@.take(k as int),
                decreases t.0.len() - k,
            {
                let ghost prev = out@;
                let e: &'a TreeValue = &t.0[k];
                out.push(e);
                assert(derefs(out@) =~= derefs(prev).push(*e));
                assert(t.0@.take(k + 1) =~= t.0@.take(k as int).push(t.0@[k as int]));
                assert(derefs(out@) =~= base + t.0@.take(k + 1));
                k = k + 1;
            }
            assert(t.0@.take(t.0@.len() as int) =~= t.0@);
        } else {
            assert(table_of(item.value) =~= Seq::<TreeValue>::empty());
            assert(tables_entries(all.take(i + 1)) =~= tables_entries(all.take(i as int)));
        }
        i = i + 1;
    }
    assert(all.take(all.len() as int) =~= all);
    out
}

/// The version requirement of an entry (see `entry_version`).
pub fn version_of(t: &TreeValue) -> (r: Option<(String, RangeExclusive)>)
    ensures
        match entry_version(*t) {
            Some((v, rg)) => r matches Some((x, y)) && x@ == v && y == rg,
            None => r is None,
        },
{
    match &t.value {
        Value::String { value, range } => Some((value.clone(), *range)),
        Value::Tree(tree) => {
            let nodes = &tree.0;
            let mut i: usize = 0;
            assert(nodes@.skip(0) == nodes@);
            while i < nodes.len()
                invariant
                    i <= nodes@.len(),
                    entry_version(*t) == version_in(nodes@),
                    version_in(nodes@) == version_in(nodes@.skip(i as int)),
                decreases nodes.len() - i,
            {
                assert(nodes@.skip(i as int).drop_first() == nodes@.skip(i + 1));
                assert(nodes@.skip(i as int)[0] == nodes@[i as int]);
                if same_text(nodes[i].key.value.as_str(), "version") {
                    assert(nodes@.skip(i as int).len() > 0);
                    assert(nodes@.skip(i as int)[0].key.value@ == "version"@);
                    return match &nodes[i].value {
                        Value::String { value, range } => Some((value.clone(), *range)),
                        _ => None,
                    };
                }
                i = i + 1;
            }
            None
        },
        _ => None,
    }
}

/// Whether the offsets the actions of an entry place edits at are
/// character boundaries.
pub open spec fn entry_offsets_ok(s: Seq<char>, t: TreeValue) -> bool {
    &&& (t.value is NoContent ==> boundary(s, t.key.range.end))
    &&& (value_range_of(t.value) matches Some(r) ==> boundary(s, r.start) && boundary(s, r.end))
}

pub open spec fn edit_at(s: Seq<char>, a: u32, b: u32, text: Seq<char>) -> EditView {
    EditView { start: (at(s, a).0 as int, at(s, a).1 as int), end: (at(s, b).0 as int, at(s, b).1 as int), text }
}

/// The actions on the entry of the tree met by the selection
/// `start..=end`: for an entry with nothing after its key, making it a
/// workspace dependency; for a string requirement, expanding it to an inline
/// table (the collapsing branch needs a value with a range and a requirement
/// that is no string, which no entry has: only strings and bools carry a
/// range); its documentation and crates.io pages; then the upgrades and the update command (see
/// `with_upgrades`). Nothing when no entry is met.
pub open spec fn tree_entry_actions(
    s: Seq<char>,
    items: Seq<TreeValue>,
    start: u32,
    end: u32,
    us: Seq<Upgrade>,
) -> Seq<EntryView> {
    match first_entry_meeting(items, start, end) {
        None => seq![],
        Some(i) => {
            let t = items[i];
            let name = t.key.value@;
            let ws: Seq<EntryView> = if t.value is NoContent {
                seq![EntryView::Edit {
                    title: "Make Workspace dependency"@,
                    edits: seq![edit_at(s, t.key.range.end, t.key.range.end, " = { workspace = true }"@)],
                }]
            } else {
                seq![]
            };
            let spec_edit: Seq<EntryView> = match (value_range_of(t.value), entry_version(t)) {
                (Some(r), Some((v, _))) => if t.value is String {
                    seq![EntryView::Edit {
                        title: "Expand dependency specification"@,
                        edits: seq![edit_at(s, r.start, r.end, "{ version = \""@ + v + "\" }"@)],
                    }]
                } else {
                    seq![EntryView::Edit {
                        title: "Collapse dependency specification"@,
                        edits: seq![edit_at(s, r.start, r.end, "\""@ + v + "\""@)],
                    }]
                },
                _ => seq![],
            };
            let pages = seq![
                EntryView::OpenUrl { title: "Open Docs"@, url: "https://docs.rs/"@ + name + "/latest/"@ + name + "/"@ },
                EntryView::OpenUrl { title: "Open crates.io"@, url: "https://crates.io/crates/"@ + name + "/"@ },
            ];
            with_upgrades(s, ws + spec_edit + pages, name, us, "cargo update"@)
        },
    }
}

/// What `tree_actions` needs of its inputs: the text fits `u32` offsets,
/// and the offsets it places edits at, those of the met entry and of the
/// upgrades, can be placed.
pub open spec fn tree_actions_ok(s: Seq<char>, items: Seq<TreeValue>, start: u32, end: u32, us: Seq<Upgrade>) -> bool {
    &&& s.len() <= u32::MAX
    &&& match first_entry_meeting(items, start, end) {
        Some(i) => entry_offsets_ok(s, items[i]) && all_trim_ok(s, us),
        None => true,
    }
}

fn edit_between(text: &str, a: u32, b: u32, t: String) -> (r: LineEdit)
    requires
        text@.len() <= u32::MAX,
        boundary(text@, a),
        boundary(text@, b),
    ensures
        r@ == edit_at(text@, a, b, t@),
{
    let (l0, c0) = byte_offset_to_position(text, a);
    let (l1, c1) = byte_offset_to_position(text, b);
    LineEdit { start: (l0, c0), end: (l1, c1), text: t }
}

fn one_edit(title: &str, e: LineEdit) -> (r: EntryAction)
    ensures
        r@ == (EntryView::Edit { title: title@, edits: seq![e@] }),
{
    let mut edits: Vec<LineEdit> = Vec::new();
    edits.push(e);
    assert(edit_views(edits@) =~= seq![e@]);
    EntryAction::Edit { title: owned(title), edits }
}

/// The code actions of a manifest's dependency entries (`items`) for the
/// selection `start..=end` of `text`, given the upgrades the registry allows
/// (see `tree_entry_actions`).
pub fn tree_actions(text: &str, items: &Vec<&TreeValue>, start: u32, end: u32, upgrades: &Vec<Upgrade>) -> (r: Vec<EntryAction>)
    requires
        tree_actions_ok(text@, derefs(items@), start, end, upgrades@),
    ensures
        action_views(r@) == tree_entry_actions(text@, derefs(items@), start, end, upgrades@),
{
    let mut out: Vec<EntryAction> = Vec::new();
    let i = match find_entry(items, start, end) {
        Some(i) => i,
        None => {
            assert(action_views(out@) =~= Seq::<EntryView>::empty());
            return out;
        },
    };
    let t: &TreeValue = items[i];
    assert(derefs(items@)[i as int] == *t);
    let name = t.key.value.as_str();
    if let Value::NoContent = t.value {
        let e = edit_between(text, t.key.range.end, t.key.range.end, owned(" = { workspace = true }"));
        out.push(one_edit("Make Workspace dependency", e));
    }
    let ghost ws = action_views(out@);
    if let (Some(r), Some((v, _))) = (t.value.range(), version_of(t)) {
        let is_str = match t.value {
            Value::String { .. } => true,
            _ => false,
        };
        if is_str {
            let mut x = chars_of("{ version = \"");
            push_str(&mut x, v.as_str());
            push_str(&mut x, "\" }");
            let e = edit_between(text, r.start, r.end, string_from(&x));
            out.push(one_edit("Expand dependency specification", e));
        } else {
            let mut x = chars_of("\"");
            push_str(&mut x, v.as_str());
            push_str(&mut x, "\"");
            let e = edit_between(text, r.start, r.end, string_from(&x));
            out.push(one_edit("Collapse dependency specification", e));
        }
    }
    let ghost sp = action_views(out@);
    let mut docs = chars_of("https://docs.rs/");
    push_str(&mut docs, name);
    push_str(&mut docs, "/latest/");
    push_str(&mut docs, name);
    push_str(&mut docs, "/");
    out.push(EntryAction::OpenUrl { title: owned("Open Docs"), url: string_from(&docs) });
    let mut io = chars_of("https://crates.io/crates/");
    push_str(&mut io, name);
    push_str(&mut io, "/");
    out.push(EntryAction::OpenUrl { title: owned("Open crates.io"), url: string_from(&io) });
    proof {
        let tv = derefs(items@)[i as int];
        let nm = tv.key.value@;
        assert(action_views(out@) =~= sp + seq![
            EntryView::OpenUrl { title: "Open Docs"@, url: "https://docs.rs/"@ + nm + "/latest/"@ + nm + "/"@ },
            EntryView::OpenUrl { title: "Open crates.io"@, url: "https://crates.io/crates/"@ + nm + "/"@ },
        ]);
    }
    add_upgrades(out, text, name, upgrades, "cargo update")
}

pub open spec fn upgrade_view(u: Upgrade) -> (Seq<char>, u32, u32, Seq<char>) {
    (u.name@, u.start, u.end, u.version@)
}

pub open spec fn upgrade_views(us: Seq<Upgrade>) -> Seq<(Seq<char>, u32, u32, Seq<char>)> {
    us.map_values(|u: Upgrade| upgrade_view(u))
}

/// The upgrades of the first `n` entries: for each with a version
/// requirement, the newest of its known versions after it (see
/// `upgrade_target`), placed at the requirement's range; nothing at all when
/// a requirement does not read as a version.
pub open spec fn tree_upgrades(
    items: Seq<TreeValue>,
    available: Seq<Seq<VersionView>>,
    n: nat,
) -> Option<Seq<(Seq<char>, u32, u32, Seq<char>)>>
    decreases n,
{
    if n == 0 {
        Some(seq![])
    } else {
        match tree_upgrades(items, available, (n - 1) as nat) {
            None => None,
            Some(prev) => match entry_version(items[n - 1]) {
                None => Some(prev),
                Some((v, r)) => match parse_version(v) {
                    Err(_) => None,
                    Ok(_) => match upgrade_target(v, available[n - 1]) {
                        Some(t) => Some(prev.push((items[n - 1].key.value@, r.start, r.end, t))),
                        None => Some(prev),
                    },
                },
            },
        }
    }
}

/// The upgrades the dependency entries `items` can take, given the versions
/// known for each (`available`, by entry); see `tree_upgrades`.
pub fn upgrades_of(items: &Vec<&TreeValue>, available: &Vec<Vec<RustVersion>>) -> (r: Option<Vec<Upgrade>>)
    requires
        available@.len() == items@.len(),
    ensures
        match tree_upgrades(derefs(items@), versions_views(available@), items@.len()) {
            Some(v) => r matches Some(x) && upgrade_views(x@) == v,
            None => r is None,
        },
{
    let mut out: Vec<Upgrade> = Vec::new();
    let mut i: usize = 0;
    while i < items.len()
        invariant
            i <= items@.len(),
            available@.len() == items@.len(),
            tree_upgrades(derefs(items@), versions_views(available@), i as nat) == Some(upgrade_views(out@)),
        decreases items.len() - i,
    {
        assert(versions_views(available@)[i as int] == version_views(available@[i as int]@));
        let ghost before = out@;
        assert(derefs(items@)[i as int] == *items@[i as int]);
        if let Some((v, r)) = version_of(items[i]) {
            match RustVersion::try_from(v.as_str()) {
                Err(_) => {
                    proof { lemma_upgrades_stay_none(derefs(items@), versions_views(available@), (i + 1) as nat, items@.len()); }
                    return None;
                },
                Ok(_) => {},
            }
            match newest_after(v.as_str(), &available[i]) {
                Some(t) => {
                    let u = Upgrade { name: items[i].key.value.clone(), start: r.start, end: r.end, version: t };
                    out.push(u);
                    assert(upgrade_views(out@) =~= upgrade_views(before).push(upgrade_view(u)));
                },
                None => {},
            }
        }
        i = i + 1;
    }
    Some(out)
}

/// Once the upgrades of some entries are nothing, so are those of more.
proof fn lemma_upgrades_stay_none(items: Seq<TreeValue>, available: Seq<Seq<VersionView>>, m: nat, n: nat)
    requires
        m <= n,
        tree_upgrades(items, available, m) is None,
    ensures
        tree_upgrades(items, available, n) is None,
    decreases n - m,
{
    if m < n {
        lemma_upgrades_stay_none(items, available, m + 1, n);
    }
}

/// The upgrades of a manifest's positioned dependencies, from pairs of a
/// dependency's index and its new version: each placed at the range of the
/// dependency's name.
pub open spec fn named_upgrade_views(
    deps: Seq<Positioned<Dependency>>,
    us: Seq<(usize, String)>,
) -> Seq<(Seq<char>, u32, u32, Seq<char>)> {
    us.map_values(
        |u: (usize, String)|
            (
                deps[u.0 as int].data.name.data@,
                deps[u.0 as int].data.name.start,
                deps[u.0 as int].data.name.end,
                u.1@,
            ),
    )
}

/// The upgrades (see `named_upgrade_views`) of the pairs that
/// `Toml::needs_update` gives.
pub fn named_upgrades(deps: &Vec<Positioned<Dependency>>, updates: &Vec<(usize, String)>) -> (r: Vec<Upgrade>)
    requires
        forall|k: int| 0 <= k < updates@.len() ==> (#[trigger] updates@[k]).0 < deps@.len(),
    ensures
        upgrade_views(r@) == named_upgrade_views(deps@, updates@),
{
    let mut out: Vec<Upgrade> = Vec::new();
    let mut k: usize = 0;
    while k < updates.len()
        invariant
            k <= updates@.len(),
            forall|j: int| 0 <= j < updates@.len() ==> (#[trigger] updates@[j]).0 < deps@.len(),
            upgrade_views(out@) == named_upgrade_views(deps@, updates@.take(k as int)),
        decreases updates.len() - k,
    {
        let i = updates[k].0;
        let n = &deps[i].data.name;
        let u = Upgrade { name: n.data.clone(), start: n.start, end: n.end, version: updates[k].1.clone() };
        let ghost before = out@;
        out.push(u);
        assert(updates@.take(k + 1) =~= updates@.take(k as int).push(updates@[k as int]));
        assert(upgrade_views(out@) =~= upgrade_views(before).push(upgrade_view(u)));
        assert(named_upgrade_views(deps@, updates@.take(k + 1)) =~= named_upgrade_views(deps@, updates@.take(k as int)).push(
            upgrade_view(u),
        ));
        k = k + 1;
    }
    assert(updates@.take(updates@.len() as int) =~= updates@);
    out
}

} // verus!
