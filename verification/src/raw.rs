//! The text of a manifest and the tree of its keys and values, each with the
//! byte range where it is written.
use vstd::prelude::*;
use crate::positioned::Positioned;
use crate::dom::{array_items, bool_value, key_ranges, key_text, node_range, node_ref, node_text, parse_root, str_value, table_entries, NodeRef,
    DomView, DomKind, KeyView, dom_view, dom_entries, dom_items, table_dom, key_dom, taplo_dom};

verus! {

/// A range of byte offsets; both ends count as inside.
#[derive(Debug, PartialEq, Eq, Clone, Copy, Structural)]
pub struct RangeExclusive {
    pub start: u32,
    pub end: u32,
}

impl RangeExclusive {
    /// Whether `pos` lies in the range, both ends included.
    pub fn contains_inclusive(&self, pos: u32) -> (r: bool)
        ensures
            r == (self.start <= pos && pos <= self.end),
    {
        self.start <= pos && pos <= self.end
    }
}

/// The smallest range that holds both ranges.
pub open spec fn widen(r: RangeExclusive, o: RangeExclusive) -> RangeExclusive {
    RangeExclusive {
        start: if o.start < r.start { o.start } else { r.start },
        end: if o.end > r.end { o.end } else { r.end },
    }
}

fn widen_exec(r: RangeExclusive, o: RangeExclusive) -> (w: RangeExclusive)
    ensures
        w == widen(r, o),
{
    RangeExclusive {
        start: if o.start < r.start { o.start } else { r.start },
        end: if o.end > r.end { o.end } else { r.end },
    }
}

/// The text of a manifest and the tree read from it.
#[derive(Debug)]
pub struct CargoRawData {
    /// The text of the file.
    pub string: String,
    /// The keys and values read from the text.
    pub tree: Tree,
}

impl CargoRawData {
    /// The text of the file.
    pub fn text(&self) -> (r: &str)
        ensures
            r@ == self.string@,
    {
        self.string.as_str()
    }

    /// The text of the file, to be changed in place.
    pub fn text_mut(&mut self) -> (r: &mut String)
        ensures
            *r == old(self).string,
            final(self).string == *final(r),
            final(self).tree == old(self).tree,
    {
        &mut self.string
    }

    /// A manifest with the given text and an empty tree.
    pub fn new(content: String) -> (r: Self)
        ensures
            r.string == content,
            r.tree.0@.len() == 0,
    {
        Self { string: content, tree: Tree(Vec::new()) }
    }
}

/// The entries of a table, in the order they are written.
#[derive(Debug)]
pub struct Tree(pub Vec<TreeValue>);

/// A key and its value.
#[derive(Debug)]
pub struct TreeValue {
    pub key: EntryKey,
    pub value: Value,
}

/// A key and where it is written.
#[derive(Debug)]
pub struct EntryKey {
    pub range: RangeExclusive,
    pub value: String,
}

/// A value with the range where it is written; a table spans its entries too.
#[derive(Debug)]
pub enum Value {
    Tree { value: Tree, range: RangeExclusive },
    NoContent,
    Array(Vec<Value>),
    String { value: String, range: RangeExclusive },
    Bool { value: bool, range: RangeExclusive },
    Unknown,
}

/// The range of a value: for a table, its own range widened by every key
/// and every value with a range among its entries.
pub open spec fn raw_value_range(v: Value) -> Option<RangeExclusive>
    decreases v, 1nat,
{
    match v {
        Value::Tree { value, range } => Some(entries_span(value.0@, 0, range)),
        Value::String { range, .. } => Some(range),
        Value::Bool { range, .. } => Some(range),
        _ => None,
    }
}

/// `acc` widened by the keys and values of the entries from `i` on.
pub open spec fn entries_span(items: Seq<TreeValue>, i: nat, acc: RangeExclusive) -> RangeExclusive
    decreases items, items.len() - i,
{
    if i >= items.len() {
        acc
    } else {
        let with_key = widen(acc, items[i as int].key.range);
        let next = match raw_value_range(items[i as int].value) {
            Some(r) => widen(with_key, r),
            None => with_key,
        };
        entries_span(items, i + 1, next)
    }
}

/// The range of an entry: its key widened by its value's range.
pub open spec fn entry_range(t: TreeValue) -> RangeExclusive {
    match raw_value_range(t.value) {
        Some(r) => widen(t.key.range, r),
        None => t.key.range,
    }
}

impl TreeValue {
    /// The range of the key and its value together.
    pub fn range(&self) -> (r: RangeExclusive)
        ensures
            r == entry_range(*self),
    {
        match self.value.range() {
            Some(range) => widen_exec(self.key.range, range),
            None => self.key.range,
        }
    }
}

impl EntryKey {
    /// The key at its range.
    pub fn to_positioned(&self) -> (r: Positioned<String>)
        ensures
            r.start == self.range.start,
            r.end == self.range.end,
            r.data == self.value,
    {
        Positioned { start: self.range.start, end: self.range.end, data: self.value.clone() }
    }
}

impl Value {
    /// The string value at its range.
    pub fn as_str(&self) -> (r: Option<Positioned<String>>)
        ensures
            match self {
                Value::String { value, range } => r matches Some(p) && p.start == range.start
                    && p.end == range.end && p.data@ == value@,
                _ => r is None,
            },
    {
        match self {
            Value::String { value, range } => Some(crate::structure::str_to_positioned(value.as_str(), range)),
            _ => None,
        }
    }

    pub fn as_tree(&self) -> (r: Option<&Tree>)
        ensures
            match self {
                Value::Tree { value, .. } => r == Some(value),
                _ => r is None,
            },
    {
        match self {
            Value::Tree { value, .. } => Some(value),
            _ => None,
        }
    }

    pub fn as_array(&self) -> (r: Option<&Vec<Value>>)
        ensures
            match self {
                Value::Array(value) => r == Some(value),
                _ => r is None,
            },
    {
        match self {
            Value::Array(value) => Some(value),
            _ => None,
        }
    }

    /// The bool value at its range.
    pub fn as_bool(&self) -> (r: Option<Positioned<bool>>)
        ensures
            match self {
                Value::Bool { value, range } => r == Some(Positioned { start: range.start, end: range.end, data: *value }),
                _ => r is None,
            },
    {
        match self {
            Value::Bool { value, range } => Some(Positioned { start: range.start, end: range.end, data: *value }),
            _ => None,
        }
    }

    /// The range of the value; a table's range takes in every key and value
    /// inside it.
    pub fn range(&self) -> (r: Option<RangeExclusive>)
        ensures
            r == raw_value_range(*self),
        decreases *self, 0nat,
    {
        match self {
            Value::Tree { value, range } => Some(value.span(*range)),
            Value::String { range, .. } => Some(*range),
            Value::Bool { range, .. } => Some(*range),
            _ => None,
        }
    }
}

impl TreeValue {
    /// `acc` widened by this key and by this value's range, if it has one.
    fn widen_by(&self, acc: RangeExclusive) -> (r: RangeExclusive)
        ensures
            r == match raw_value_range(self.value) {
                Some(v) => widen(widen(acc, self.key.range), v),
                None => widen(acc, self.key.range),
            },
        decreases *self, 0nat,
    {
        let with_key = widen_exec(acc, self.key.range);
        match self.value.range() {
            Some(v) => widen_exec(with_key, v),
            None => with_key,
        }
    }
}

impl Tree {
    /// `acc` widened by every key and value of the entries.
    fn span(&self, acc: RangeExclusive) -> (r: RangeExclusive)
        ensures
            r == entries_span(self.0@, 0, acc),
        decreases *self, 0nat,
    {
        let mut out = acc;
        let mut i: usize = 0;
        while i < self.0.len()
            invariant
                i <= self.0@.len(),
                entries_span(self.0@, 0, acc) == entries_span(self.0@, i as nat, out),
            decreases self.0.len() - i,
        {
            out = self.0[i].widen_by(out);
            i = i + 1;
        }
        out
    }
}

fn range_of(r: crate::tree::RangeExclusive) -> (o: RangeExclusive)
    ensures
        o.start == r.start && o.end == r.end,
{
    RangeExclusive { start: r.start, end: r.end }
}

/// Whether `r` is the range `d`, field by field.
pub open spec fn same_range(r: RangeExclusive, d: crate::tree::RangeExclusive) -> bool {
    r.start == d.start && r.end == d.end
}

/// Whether a node turns into a value of this tree with `fuel`: fuel is
/// left; a table, bool or string has syntax, an invalid node syntax and a
/// text; below it, every key has a range and every value turns into one.
pub open spec fn raw_converts(d: DomView, fuel: nat) -> bool
    decreases fuel, 0nat,
{
    fuel > 0 && match d.kind {
        DomKind::Table { entries, .. } => raw_entries_convert(entries, (fuel - 1) as nat) && d.range is Some,
        DomKind::Array { items } => forall|i: int| 0 <= i < items.len() ==> raw_converts(#[trigger] items[i], (fuel - 1) as nat),
        DomKind::Bool { .. } => d.range is Some,
        DomKind::Str { .. } => d.range is Some,
        DomKind::Invalid => d.range is Some && d.text is Some,
        DomKind::Other => true,
    }
}

/// Whether every entry of a table turns into an entry of this tree.
pub open spec fn raw_entries_convert(entries: Seq<(KeyView, DomView)>, fuel: nat) -> bool
    decreases fuel, 1nat,
{
    forall|i: int| 0 <= i < entries.len() ==> (#[trigger] entries[i]).0.ranges.len() > 0 && raw_converts(entries[i].1, fuel)
}

/// Whether `v` is the value a node turns into: a table its tree with the
/// table's range, an array its items' values, a bool or string its value, an
/// invalid node its text as a string (these three with the node's range),
/// and a number or date an unknown value.
pub open spec fn raw_value_is(v: Value, d: DomView, fuel: nat) -> bool
    decreases fuel, 0nat,
{
    match d.kind {
        DomKind::Table { entries, .. } => fuel > 0 && (v matches Value::Tree { value, range } && same_range(range, d.range->0)
            && raw_tree_is(value, entries, (fuel - 1) as nat)),
        DomKind::Array { items } => fuel > 0 && (v matches Value::Array(vs) && vs@.len() == items.len() && forall|i: int|
            0 <= i < items.len() ==> raw_value_is(#[trigger] vs@[i], items[i], (fuel - 1) as nat)),
        DomKind::Bool { value: b } => v matches Value::Bool { value, range } && value == b && same_range(range, d.range->0),
        DomKind::Str { value: s } => v matches Value::String { value, range } && value@ == s && same_range(range, d.range->0),
        DomKind::Invalid => v matches Value::String { value, range } && d.text == Some(value@) && same_range(range, d.range->0),
        DomKind::Other => v is Unknown,
    }
}

/// Whether `t` holds, in order, an entry for each table entry: keyed by the
/// key's first range and its text, with the value the entry's value turns
/// into.
pub open spec fn raw_tree_is(t: Tree, entries: Seq<(KeyView, DomView)>, fuel: nat) -> bool
    decreases fuel, 1nat,
{
    &&& t.0@.len() == entries.len()
    &&& forall|i: int|
        0 <= i < entries.len() ==> same_range((#[trigger] t.0@[i]).key.range, entries[i].0.ranges[0])
            && t.0@[i].key.value@ == entries[i].0.text && raw_value_is(t.0@[i].value, entries[i].1, fuel)
}

/// Turns a node into a value (see `raw_value_is`); `None` when it does not
/// turn into one (see `raw_converts`).
fn value_from(node: &taplo::dom::Node, fuel: usize) -> (r: Option<Value>)
    ensures
        r is Some <==> raw_converts(dom_view(*node), fuel as nat),
        r matches Some(v) ==> raw_value_is(v, dom_view(*node), fuel as nat),
    decreases fuel, 0nat,
{
    let ghost d = dom_view(*node);
    if fuel == 0 {
        return None;
    }
    match node_ref(node) {
        NodeRef::Table(t) => match (tree_from(t, fuel - 1), node_range(node)) {
            (Some(tree), Some(range)) => Some(Value::Tree { value: tree, range: range_of(range) }),
            _ => None,
        },
        NodeRef::Array(a) => {
            let items = array_items(a);
            let ghost iv = dom_items(d);
            let mut out: Vec<Value> = Vec::new();
            let mut i: usize = 0;
            while i < items.len()
                invariant
                    i <= items@.len(),
                    fuel > 0,
                    d == dom_view(*node),
                    d.kind is Array,
                    iv == dom_items(d),
                    items@.len() == iv.len(),
                    forall|k: int| 0 <= k < items@.len() ==> dom_view(#[trigger] items@[k]) == iv[k],
                    out@.len() == i,
                    forall|k: int| 0 <= k < i ==> raw_value_is(#[trigger] out@[k], iv[k], (fuel - 1) as nat),
                    forall|k: int| 0 <= k < i ==> raw_converts(#[trigger] iv[k], (fuel - 1) as nat),
                decreases items.len() - i,
            {
                match value_from(&items[i], fuel - 1) {
                    Some(v) => out.push(v),
                    None => {
                        assert(!raw_converts(iv[i as int], (fuel - 1) as nat));
                        return None;
                    },
                }
                i = i + 1;
            }
            Some(Value::Array(out))
        },
        NodeRef::Bool(b) => match node_range(node) {
            Some(range) => Some(Value::Bool { value: bool_value(b), range: range_of(range) }),
            None => None,
        },
        NodeRef::Str(s) => match node_range(node) {
            Some(range) => Some(Value::String { value: str_value(s), range: range_of(range) }),
            None => None,
        },
        NodeRef::Invalid => match (node_range(node), node_text(node)) {
            (Some(range), Some(text)) => Some(Value::String { value: text, range: range_of(range) }),
            _ => None,
        },
        NodeRef::Other => Some(Value::Unknown),
    }
}

/// Turns a table into a tree: every entry, keyed by its first key range
/// (see `raw_tree_is`); `None` when an entry does not turn into one.
fn tree_from(table: &taplo::dom::node::Table, fuel: usize) -> (r: Option<Tree>)
    ensures
        r is Some <==> raw_entries_convert(dom_entries(table_dom(*table)), fuel as nat),
        r matches Some(t) ==> raw_tree_is(t, dom_entries(table_dom(*table)), fuel as nat),
    decreases fuel, 1nat,
{
    let ghost ev = dom_entries(table_dom(*table));
    let entries = table_entries(table);
    let mut out: Vec<TreeValue> = Vec::new();
    let mut i: usize = 0;
    while i < entries.len()
        invariant
            i <= entries@.len(),
            ev == dom_entries(table_dom(*table)),
            entries@.len() == ev.len(),
            forall|k: int| 0 <= k < entries@.len() ==> key_dom(#[trigger] entries@[k].0) == ev[k].0 && dom_view(entries@[k].1) == ev[k].1,
            out@.len() == i,
            forall|k: int|
                0 <= k < i ==> same_range((#[trigger] out@[k]).key.range, ev[k].0.ranges[0])
                    && out@[k].key.value@ == ev[k].0.text && raw_value_is(out@[k].value, ev[k].1, fuel as nat),
            forall|k: int| 0 <= k < i ==> (#[trigger] ev[k]).0.ranges.len() > 0 && raw_converts(ev[k].1, fuel as nat),
        decreases entries.len() - i,
    {
        let (k, v) = &entries[i];
        let ranges = key_ranges(k);
        if ranges.len() == 0 {
            assert(!(ev[i as int].0.ranges.len() > 0));
            return None;
        }
        let key = EntryKey { range: range_of(ranges[0]), value: key_text(k) };
        match value_from(v, fuel) {
            Some(value) => out.push(TreeValue { key, value }),
            None => {
                assert(!raw_converts(ev[i as int].1, fuel as nat));
                return None;
            },
        }
        i = i + 1;
    }
    Some(Tree(out))
}

impl CargoRawData {
    /// Reads the tree of the text with taplo: an empty tree when the
    /// document's root is not a table. Gives `false`, and an empty tree,
    /// when a node of the document has no syntax or a key no range; the
    /// text stays as it was.
    pub fn generate_tree(&mut self) -> (r: bool)
        ensures
            final(self).string == old(self).string,
            r <==> !(taplo_dom(old(self).string@).kind is Table) || raw_entries_convert(
                dom_entries(taplo_dom(old(self).string@)),
                usize::MAX as nat,
            ),
            taplo_dom(old(self).string@).kind is Table && r ==> raw_tree_is(
                final(self).tree,
                dom_entries(taplo_dom(old(self).string@)),
                usize::MAX as nat,
            ),
            !(taplo_dom(old(self).string@).kind is Table) || !r ==> final(self).tree.0@.len() == 0,
    {
        let dom = parse_root(self.string.as_str());
        match node_ref(&dom) {
            NodeRef::Table(t) => match tree_from(t, usize::MAX) {
                Some(tree) => {
                    self.tree = tree;
                    true
                },
                None => {
                    self.tree = Tree(Vec::new());
                    false
                },
            },
            _ => {
                self.tree = Tree(Vec::new());
                true
            },
        }
    }
}

} // verus!
