//! A plain tree of keys and values read from a manifest: tables, arrays,
//! strings and bools with their byte ranges, and the walks over it (by key,
//! by name, by position).
use vstd::prelude::*;
use crate::raw::RangeExclusive;
use crate::text::same_text;
use crate::dom::{array_items, bool_value, key_ranges, key_text, node_range, node_ref, node_text, parse_root, str_value, table_entries, NodeRef,
    DomView, DomKind, KeyView, dom_view, dom_entries, dom_items, table_dom, key_dom, taplo_dom};
use crate::raw::same_range;

verus! {

/// The entries of a table, in the order of the text.
pub struct Tree(pub Vec<TreeValue>);

/// One entry: its key and its value.
pub struct TreeValue {
    pub key: EntryKey,
    pub value: Value,
}

/// A key and the byte range where it is written.
pub struct EntryKey {
    pub range: RangeExclusive,
    pub value: String,
}

/// A value: a table, an entry with nothing after its key, an array, a string
/// or a bool (these two with their byte range).
pub enum Value {
    Tree(Tree),
    NoContent,
    Array(Vec<Value>),
    String { value: String, range: RangeExclusive },
    Bool { value: bool, range: RangeExclusive },
}

/// A step on the path to a position: a key or a value of the tree.
pub enum KeyOrValue<'a> {
    Key(&'a EntryKey),
    Value(&'a Value),
}

/// A step on the path, owned.
pub enum KeyOrValueOwned {
    Key(EntryKey),
    Value(Value),
}

/// The mathematical value of a step.
pub enum Step {
    Key(EntryKey),
    Value(Value),
}

pub open spec fn step_of(kv: KeyOrValue) -> Step {
    match kv {
        KeyOrValue::Key(k) => Step::Key(*k),
        KeyOrValue::Value(v) => Step::Value(*v),
    }
}

pub open spec fn steps_of(p: Seq<KeyOrValue>) -> Seq<Step> {
    p.map_values(|kv: KeyOrValue| step_of(kv))
}

/// Two keys are equal when their ranges and texts are.
pub open spec fn same_key(a: EntryKey, b: EntryKey) -> bool {
    a.range == b.range && a.value@ == b.value@
}

fn key_eq(a: &EntryKey, b: &EntryKey) -> (r: bool)
    ensures
        r == same_key(*a, *b),
{
    a.range.start == b.range.start && a.range.end == b.range.end && same_text(a.value.as_str(), b.value.as_str())
}

// ---------------------------------------------------------------------------
// Lookup by name.

/// The index of the first entry from `i` on whose key reads `s`.
pub open spec fn first_named(nodes: Seq<TreeValue>, i: nat, s: Seq<char>) -> Option<int>
    decreases nodes.len() - i,
{
    if i >= nodes.len() {
        None
    } else if nodes[i as int].key.value@ == s {
        Some(i as int)
    } else {
        first_named(nodes, i + 1, s)
    }
}

/// Every entry whose key reads `s`, in the value, depth first: an entry
/// comes before the entries inside its value.
pub open spec fn value_found(v: Value, s: Seq<char>) -> Seq<TreeValue>
    decreases v, 0nat,
{
    match v {
        Value::Tree(t) => nodes_found(t.0@, 0, s),
        Value::Array(items) => items_found(items@, 0, s),
        _ => seq![],
    }
}

pub open spec fn items_found(items: Seq<Value>, i: nat, s: Seq<char>) -> Seq<TreeValue>
    decreases items, items.len() - i,
{
    if i >= items.len() {
        seq![]
    } else {
        value_found(items[i as int], s) + items_found(items, i + 1, s)
    }
}

pub open spec fn nodes_found(nodes: Seq<TreeValue>, i: nat, s: Seq<char>) -> Seq<TreeValue>
    decreases nodes, nodes.len() - i,
{
    if i >= nodes.len() {
        seq![]
    } else {
        (if nodes[i as int].key.value@ == s {
            seq![nodes[i as int]]
        } else {
            seq![]
        }) + value_found(nodes[i as int].value, s) + nodes_found(nodes, i + 1, s)
    }
}


/// Every entry that the search by name finds has a key that reads the name.
pub proof fn lemma_found_named(v: Value, s: Seq<char>)
    ensures
        forall|k: int| 0 <= k < value_found(v, s).len() ==> (#[trigger] value_found(v, s)[k]).key.value@ == s,
    decreases v, 0nat,
{
    match v {
        Value::Tree(t) => lemma_nodes_found_named(t.0@, 0, s),
        Value::Array(items) => lemma_items_found_named(items@, 0, s),
        _ => {},
    }
}

/// Every entry that the search by name finds among array items, from item
/// `i` on, has a key that reads the name.
pub proof fn lemma_items_found_named(items: Seq<Value>, i: nat, s: Seq<char>)
    ensures
        forall|k: int| 0 <= k < items_found(items, i, s).len() ==> (#[trigger] items_found(items, i, s)[k]).key.value@ == s,
    decreases items, items.len() - i,
{
    if i < items.len() {
        lemma_found_named(items[i as int], s);
        lemma_items_found_named(items, i + 1, s);
        let a = value_found(items[i as int], s);
        let b = items_found(items, i + 1, s);
        assert forall|k: int| 0 <= k < (a + b).len() implies (#[trigger] (a + b)[k]).key.value@ == s by {
            if k >= a.len() {
                assert((a + b)[k] == b[k - a.len()]);
            }
        }
    }
}

/// Every entry that the search by name finds in a table (see
/// `lemma_found_named`) has a key that reads the name.
pub proof fn lemma_nodes_found_named(nodes: Seq<TreeValue>, i: nat, s: Seq<char>)
    ensures
        forall|k: int| 0 <= k < nodes_found(nodes, i, s).len() ==> (#[trigger] nodes_found(nodes, i, s)[k]).key.value@ == s,
    decreases nodes, nodes.len() - i,
{
    if i < nodes.len() {
        lemma_found_named(nodes[i as int].value, s);
        lemma_nodes_found_named(nodes, i + 1, s);
        let h: Seq<TreeValue> = if nodes[i as int].key.value@ == s {
            seq![nodes[i as int]]
        } else {
            seq![]
        };
        let a = value_found(nodes[i as int].value, s);
        let b = nodes_found(nodes, i + 1, s);
        assert forall|k: int| 0 <= k < (h + a + b).len() implies (#[trigger] (h + a + b)[k]).key.value@ == s by {
            if k < h.len() {
            } else if k < h.len() + a.len() {
                assert((h + a + b)[k] == a[k - h.len()]);
            } else {
                assert((h + a + b)[k] == b[k - h.len() - a.len()]);
            }
        }
    }
}

// ---------------------------------------------------------------------------
// Lookup of the table that holds a key.

/// The table that holds `k` among its own entries, searched depth first.
pub open spec fn tree_by_key(t: Tree, k: EntryKey) -> Option<Tree>
    decreases t, 1nat,
{
    if exists|j: int| 0 <= j < t.0@.len() && same_key(#[trigger] t.0@[j].key, k) {
        Some(t)
    } else {
        nodes_by_key(t.0@, 0, k)
    }
}

pub open spec fn nodes_by_key(nodes: Seq<TreeValue>, i: nat, k: EntryKey) -> Option<Tree>
    decreases nodes, nodes.len() - i,
{
    if i >= nodes.len() {
        None
    } else {
        match value_by_key(nodes[i as int].value, k) {
            Some(t) => Some(t),
            None => nodes_by_key(nodes, i + 1, k),
        }
    }
}

pub open spec fn value_by_key(v: Value, k: EntryKey) -> Option<Tree>
    decreases v, 0nat,
{
    match v {
        Value::Tree(t) => tree_by_key(t, k),
        Value::Array(items) => items_by_key(items@, 0, k),
        _ => None,
    }
}

pub open spec fn items_by_key(items: Seq<Value>, i: nat, k: EntryKey) -> Option<Tree>
    decreases items, items.len() - i,
{
    if i >= items.len() {
        None
    } else {
        match value_by_key(items[i as int], k) {
            Some(t) => Some(t),
            None => items_by_key(items, i + 1, k),
        }
    }
}

// ---------------------------------------------------------------------------
// The path to a position.

/// The steps to the item at `pos` inside a value: through a table, the
/// first array element with a path, or a string or bool whose range holds
/// `pos`; nothing when no item there.
pub open spec fn value_steps(v: Value, pos: u32) -> Option<Seq<Step>>
    decreases v, 0nat,
{
    match v {
        Value::Tree(t) => nodes_steps(t.0@, 0, pos),
        Value::Array(items) => items_steps(items@, 0, pos),
        Value::NoContent => None,
        Value::String { range, .. } => if range.start <= pos && pos <= range.end {
            Some(seq![Step::Value(v)])
        } else {
            None
        },
        Value::Bool { range, .. } => if range.start <= pos && pos <= range.end {
            Some(seq![Step::Value(v)])
        } else {
            None
        },
    }
}

pub open spec fn items_steps(items: Seq<Value>, i: nat, pos: u32) -> Option<Seq<Step>>
    decreases items, items.len() - i,
{
    if i >= items.len() {
        None
    } else {
        match value_steps(items[i as int], pos) {
            Some(p) => Some(p),
            None => items_steps(items, i + 1, pos),
        }
    }
}

/// The steps through the first entry from `i` on whose key range holds
/// `pos` (the key alone) or whose value has a path (the key, then the path).
pub open spec fn nodes_steps(nodes: Seq<TreeValue>, i: nat, pos: u32) -> Option<Seq<Step>>
    decreases nodes, nodes.len() - i,
{
    if i >= nodes.len() {
        None
    } else if nodes[i as int].key.range.start <= pos && pos <= nodes[i as int].key.range.end {
        Some(seq![Step::Key(nodes[i as int].key)])
    } else {
        match value_steps(nodes[i as int].value, pos) {
            Some(p) => Some(seq![Step::Key(nodes[i as int].key)] + p),
            None => nodes_steps(nodes, i + 1, pos),
        }
    }
}

// ---------------------------------------------------------------------------
// What a tree read from a text keeps.

/// No entry's value has the very range of its key: such an entry is read as
/// having no content.
pub open spec fn value_content_ok(v: Value) -> bool
    decreases v, 0nat,
{
    match v {
        Value::Tree(t) => nodes_content_ok(t.0@, 0),
        Value::Array(items) => items_content_ok(items@, 0),
        _ => true,
    }
}

pub open spec fn nodes_content_ok(nodes: Seq<TreeValue>, i: nat) -> bool
    decreases nodes, nodes.len() - i,
{
    if i >= nodes.len() {
        true
    } else {
        value_range_of(nodes[i as int].value) != Some(nodes[i as int].key.range) && value_content_ok(
            nodes[i as int].value,
        ) && nodes_content_ok(nodes, i + 1)
    }
}

pub open spec fn items_content_ok(items: Seq<Value>, i: nat) -> bool
    decreases items, items.len() - i,
{
    if i >= items.len() {
        true
    } else {
        value_content_ok(items[i as int]) && items_content_ok(items, i + 1)
    }
}

/// The range of a string or bool.
pub open spec fn value_range_of(v: Value) -> Option<RangeExclusive> {
    match v {
        Value::String { range, .. } => Some(range),
        Value::Bool { range, .. } => Some(range),
        _ => None,
    }
}

impl Value {
    /// The text of a string value.
    pub fn as_str(&self) -> (r: Option<String>)
        ensures
            match *self {
                Value::String { value, .. } => r matches Some(x) && x@ == value@,
                _ => r is None,
            },
    {
        match self {
            Value::String { value, .. } => Some(value.clone()),
            _ => None,
        }
    }

    /// The range of a string or bool value.
    pub fn range(&self) -> (r: Option<RangeExclusive>)
        ensures
            r == value_range_of(*self),
    {
        match self {
            Value::String { range, .. } => Some(*range),
            Value::Bool { range, .. } => Some(*range),
            _ => None,
        }
    }

    /// The table inside this value that holds `key` among its entries.
    pub fn by_key(&self, key: &EntryKey) -> (r: Option<&Tree>)
        ensures
            match value_by_key(*self, *key) {
                Some(t) => r matches Some(x) && *x == t,
                None => r is None,
            },
        decreases *self, 0nat,
    {
        match self {
            Value::Tree(v) => v.by_key(key),
            Value::Array(v) => {
                let mut i: usize = 0;
                while i < v.len()
                    invariant
                        i <= v@.len(),
                        *self matches Value::Array(w) && w == v,
                        value_by_key(*self, *key) == items_by_key(v@, i as nat, *key),
                    decreases v.len() - i,
                {
                    let found = v[i].by_key(key);
                    if found.is_some() {
                        return found;
                    }
                    i = i + 1;
                }
                None
            },
            _ => None,
        }
    }

    fn find<'a>(&'a self, s: &str) -> (r: Vec<&'a TreeValue>)
        ensures
            r@.map_values(|x: &TreeValue| *x) == value_found(*self, s@),
        decreases *self, 0nat,
    {
        match self {
            Value::Tree(t) => t.find(s),
            Value::Array(v) => {
                let mut out: Vec<&'a TreeValue> = Vec::new();
                let mut i: usize = 0;
                assert(items_found(v@, 0, s@) == seq![] + items_found(v@, 0, s@));
                while i < v.len()
                    invariant
                        i <= v@.len(),
                        *self matches Value::Array(w) && w == v,
                        value_found(*self, s@) == out@.map_values(|x: &TreeValue| *x) + items_found(
                            v@,
                            i as nat,
                            s@,
                        ),
                    decreases v.len() - i,
                {
                    let mut more = v[i].find(s);
                    let ghost a = out@.map_values(|x: &TreeValue| *x);
                    let ghost b = more@.map_values(|x: &TreeValue| *x);
                    out.append(&mut more);
                    assert(out@.map_values(|x: &TreeValue| *x) =~= a + b);
                    i = i + 1;
                }
                out
            },
            _ => {
                let out: Vec<&'a TreeValue> = Vec::new();
                assert(out@.map_values(|x: &TreeValue| *x) =~= value_found(*self, s@));
                out
            },
        }
    }

    fn get_item_by_pos<'a>(&'a self, byte_offset: u32) -> (r: Option<Vec<KeyOrValue<'a>>>)
        ensures
            match value_steps(*self, byte_offset) {
                Some(p) => r matches Some(x) && steps_of(x@) == p,
                None => r is None,
            },
            r matches Some(x) ==> x@.len() > 0,
            value_steps(*self, byte_offset) matches Some(p) ==> p.len() > 0,
        decreases *self, 0nat,
    {
        match self {
            Value::Tree(v) => v.get_item_by_pos(byte_offset),
            Value::Array(arr) => {
                let mut i: usize = 0;
                while i < arr.len()
                    invariant
                        i <= arr@.len(),
                        *self matches Value::Array(w) && w == arr,
                        value_steps(*self, byte_offset) == items_steps(arr@, i as nat, byte_offset),
                    decreases arr.len() - i,
                {
                    let found = arr[i].get_item_by_pos(byte_offset);
                    if found.is_some() {
                        return found;
                    }
                    i = i + 1;
                }
                None
            },
            Value::NoContent => None,
            Value::String { range, .. } => {
                if range.contains_inclusive(byte_offset) {
                    let mut path: Vec<KeyOrValue<'a>> = Vec::new();
                    path.push(KeyOrValue::Value(self));
                    assert(steps_of(path@) =~= seq![Step::Value(*self)]);
                    Some(path)
                } else {
                    None
                }
            },
            Value::Bool { range, .. } => {
                if range.contains_inclusive(byte_offset) {
                    let mut path: Vec<KeyOrValue<'a>> = Vec::new();
                    path.push(KeyOrValue::Value(self));
                    assert(steps_of(path@) =~= seq![Step::Value(*self)]);
                    Some(path)
                } else {
                    None
                }
            },
        }
    }
}

impl Tree {
    /// The table that holds `key` among its entries: this one, or the first
    /// found inside the values, depth first.
    pub fn by_key(&self, key: &EntryKey) -> (r: Option<&Tree>)
        ensures
            match tree_by_key(*self, *key) {
                Some(t) => r matches Some(x) && *x == t,
                None => r is None,
            },
        decreases *self, 1nat,
    {
        let mut j: usize = 0;
        while j < self.0.len()
            invariant
                j <= self.0@.len(),
                forall|k: int| 0 <= k < j ==> !same_key(#[trigger] self.0@[k].key, *key),
            decreases self.0.len() - j,
        {
            if key_eq(&self.0[j].key, key) {
                return Some(self);
            }
            j = j + 1;
        }
        let mut i: usize = 0;
        while i < self.0.len()
            invariant
                i <= self.0@.len(),
                tree_by_key(*self, *key) == nodes_by_key(self.0@, i as nat, *key),
            decreases self.0.len() - i,
        {
            let found = self.0[i].value.by_key(key);
            if found.is_some() {
                return found;
            }
            i = i + 1;
        }
        None
    }

    /// The value of the first entry whose key reads `str`.
    pub fn get(&self, str: &str) -> (r: Option<&Value>)
        ensures
            match first_named(self.0@, 0, str@) {
                Some(i) => r matches Some(v) && *v == self.0@[i].value,
                None => r is None,
            },
    {
        let mut i: usize = 0;
        while i < self.0.len()
            invariant
                i <= self.0@.len(),
                first_named(self.0@, 0, str@) == first_named(self.0@, i as nat, str@),
            decreases self.0.len() - i,
        {
            if same_text(self.0[i].key.value.as_str(), str) {
                return Some(&self.0[i].value);
            }
            i = i + 1;
        }
        None
    }

    /// Every entry whose key reads `str`, depth first.
    pub fn find<'a>(&'a self, str: &str) -> (r: Vec<&'a TreeValue>)
        ensures
            r@.map_values(|x: &TreeValue| *x) == nodes_found(self.0@, 0, str@),
        decreases *self, 0nat,
    {
        let mut out: Vec<&'a TreeValue> = Vec::new();
        let mut i: usize = 0;
        assert(nodes_found(self.0@, 0, str@) == seq![] + nodes_found(self.0@, 0, str@));
        while i < self.0.len()
            invariant
                i <= self.0@.len(),
                nodes_found(self.0@, 0, str@) == out@.map_values(|x: &TreeValue| *x) + nodes_found(
                    self.0@,
                    i as nat,
                    str@,
                ),
            decreases self.0.len() - i,
        {
            let item = &self.0[i];
            let ghost a = out@.map_values(|x: &TreeValue| *x);
            if same_text(item.key.value.as_str(), str) {
                out.push(item);
            }
            let ghost mid = out@.map_values(|x: &TreeValue| *x);
            assert(mid =~= a + (if item.key.value@ == str@ {
                seq![*item]
            } else {
                seq![]
            }));
            let mut more = item.value.find(str);
            let ghost b = more@.map_values(|x: &TreeValue| *x);
            out.append(&mut more);
            assert(out@.map_values(|x: &TreeValue| *x) =~= mid + b);
            i = i + 1;
        }
        out
    }

    /// The path to the item at `byte_offset`: the key of the first entry
    /// whose key range holds it, or the key of the first entry whose value
    /// holds an item there, followed by the path inside that value.
    pub fn get_item_by_pos<'a>(&'a self, byte_offset: u32) -> (r: Option<Vec<KeyOrValue<'a>>>)
        ensures
            match nodes_steps(self.0@, 0, byte_offset) {
                Some(p) => r matches Some(x) && steps_of(x@) == p,
                None => r is None,
            },
            r matches Some(x) ==> x@.len() > 0,
        decreases *self, 0nat,
    {
        let mut i: usize = 0;
        while i < self.0.len()
            invariant
                i <= self.0@.len(),
                nodes_steps(self.0@, 0, byte_offset) == nodes_steps(self.0@, i as nat, byte_offset),
            decreases self.0.len() - i,
        {
            let item = &self.0[i];
            if item.key.range.contains_inclusive(byte_offset) {
                let mut path: Vec<KeyOrValue<'a>> = Vec::new();
                path.push(KeyOrValue::Key(&item.key));
                assert(steps_of(path@) =~= seq![Step::Key(item.key)]);
                return Some(path);
            } else {
                match item.value.get_item_by_pos(byte_offset) {
                    Some(mut v) => {
                        let mut path: Vec<KeyOrValue<'a>> = Vec::new();
                        path.push(KeyOrValue::Key(&item.key));
                        let ghost first = steps_of(path@);
                        let ghost rest = steps_of(v@);
                        path.append(&mut v);
                        assert(steps_of(path@) =~= first + rest);
                        return Some(path);
                    },
                    None => {},
                }
            }
            i = i + 1;
        }
        None
    }
}

// ---------------------------------------------------------------------------
// The steps after a key.

/// The index of the first step that is a key reading `key`.
pub open spec fn first_key_step(items: Seq<Step>, key: Seq<char>) -> Option<int>
    decreases items.len(),
{
    if items.len() == 0 {
        None
    } else {
        match first_key_step(items.drop_last(), key) {
            Some(j) => Some(j),
            None => if items.last() matches Step::Key(k) && k.value@ == key {
                Some(items.len() - 1)
            } else {
                None
            },
        }
    }
}

/// The steps after the first key reading `key`; nothing when there is no
/// such key or nothing after it.
pub open spec fn steps_after_key(items: Seq<Step>, key: Seq<char>) -> Option<Seq<Step>> {
    match first_key_step(items, key) {
        Some(j) => if j + 1 < items.len() {
            Some(items.skip(j + 1))
        } else {
            None
        },
        None => None,
    }
}

/// The steps of a path after the first key reading `key`.
pub fn get_after_key<'a, 'b>(key: &str, items: &'b [KeyOrValue<'a>]) -> (r: Option<Vec<&'b KeyOrValue<'a>>>)
    ensures
        match steps_after_key(steps_of(items@), key@) {
            Some(p) => r matches Some(x) && x@.map_values(|kv: &KeyOrValue| step_of(*kv)) == p,
            None => r is None,
        },
{
    let mut found = false;
    let mut at: usize = 0;
    let mut out: Vec<&'b KeyOrValue<'a>> = Vec::new();
    let mut i: usize = 0;
    while i < items.len()
        invariant
            i <= items@.len(),
            found ==> at < i && first_key_step(steps_of(items@).take(i as int), key@) == Some(at as int),
            !found ==> first_key_step(steps_of(items@).take(i as int), key@) is None,
            found ==> out@.map_values(|kv: &KeyOrValue| step_of(*kv)) == steps_of(items@).subrange(
                at + 1,
                i as int,
            ),
            !found ==> out@.len() == 0,
        decreases items.len() - i,
    {
        let ghost before = out@.map_values(|kv: &KeyOrValue| step_of(*kv));
        assert(steps_of(items@).take(i + 1).drop_last() == steps_of(items@).take(i as int));
        assert(steps_of(items@).take(i + 1).last() == step_of(items@[i as int]));
        if found {
            out.push(&items[i]);
            assert(out@.map_values(|kv: &KeyOrValue| step_of(*kv)) =~= steps_of(items@).subrange(
                at + 1,
                i + 1,
            ));
        } else {
            let is_key = match &items[i] {
                KeyOrValue::Key(k) => same_text(k.value.as_str(), key),
                KeyOrValue::Value(_) => false,
            };
            if is_key {
                found = true;
                at = i;
                assert(out@.map_values(|kv: &KeyOrValue| step_of(*kv)) =~= steps_of(items@).subrange(
                    at + 1,
                    i + 1,
                ));
            }
        }
        i = i + 1;
    }
    assert(steps_of(items@).take(items@.len() as int) == steps_of(items@));
    if out.len() == 0 {
        None
    } else {
        assert(steps_of(items@).subrange(at + 1, items@.len() as int) == steps_of(items@).skip(at + 1));
        Some(out)
    }
}

// ---------------------------------------------------------------------------
// Owned copies.

fn clone_key(k: &EntryKey) -> (r: EntryKey)
    ensures
        r.range == k.range,
        r.value@ == k.value@,
{
    EntryKey { range: k.range, value: k.value.clone() }
}

/// The same tree, with every text and range the same.
pub open spec fn same_value(a: Value, b: Value) -> bool
    decreases a, 0nat,
{
    match (a, b) {
        (Value::Tree(x), Value::Tree(y)) => same_nodes(x.0@, y.0@, 0),
        (Value::NoContent, Value::NoContent) => true,
        (Value::Array(x), Value::Array(y)) => same_items(x@, y@, 0),
        (Value::String { value: x, range: r }, Value::String { value: y, range: s }) => x@ == y@ && r == s,
        (Value::Bool { value: x, range: r }, Value::Bool { value: y, range: s }) => x == y && r == s,
        _ => false,
    }
}

pub open spec fn same_nodes(a: Seq<TreeValue>, b: Seq<TreeValue>, i: nat) -> bool
    decreases a, a.len() - i,
{
    a.len() == b.len() && (i < a.len() ==> same_key(a[i as int].key, b[i as int].key) && same_value(
        a[i as int].value,
        b[i as int].value,
    ) && same_nodes(a, b, i + 1))
}

pub open spec fn same_items(a: Seq<Value>, b: Seq<Value>, i: nat) -> bool
    decreases a, a.len() - i,
{
    a.len() == b.len() && (i < a.len() ==> same_value(a[i as int], b[i as int]) && same_items(a, b, i + 1))
}

fn clone_value(v: &Value) -> (r: Value)
    ensures
        same_value(r, *v),
    decreases *v, 0nat,
{
    match v {
        Value::Tree(t) => Value::Tree(clone_tree(t)),
        Value::NoContent => Value::NoContent,
        Value::Array(items) => {
            let mut out: Vec<Value> = Vec::new();
            let mut i: usize = 0;
            while i < items.len()
                invariant
                    i <= items@.len(),
                    *v matches Value::Array(w) && w == items,
                    out@.len() == i,
                    forall|k: int| 0 <= k < i ==> same_value(#[trigger] out@[k], items@[k]),
                decreases items.len() - i,
            {
                let c = clone_value(&items[i]);
                out.push(c);
                i = i + 1;
            }
            proof { lemma_same_items(out@, items@, 0); }
            Value::Array(out)
        },
        Value::String { value, range } => Value::String { value: value.clone(), range: *range },
        Value::Bool { value, range } => Value::Bool { value: *value, range: *range },
    }
}

proof fn lemma_same_items(a: Seq<Value>, b: Seq<Value>, i: nat)
    requires
        a.len() == b.len(),
        forall|k: int| 0 <= k < a.len() ==> same_value(#[trigger] a[k], b[k]),
    ensures
        same_items(a, b, i),
    decreases a.len() - i,
{
    if i < a.len() {
        lemma_same_items(a, b, i + 1);
    }
}

proof fn lemma_same_nodes(a: Seq<TreeValue>, b: Seq<TreeValue>, i: nat)
    requires
        a.len() == b.len(),
        forall|k: int| 0 <= k < a.len() ==> same_key((#[trigger] a[k]).key, b[k].key) && same_value(a[k].value, b[k].value),
    ensures
        same_nodes(a, b, i),
    decreases a.len() - i,
{
    if i < a.len() {
        lemma_same_nodes(a, b, i + 1);
    }
}

fn clone_tree(t: &Tree) -> (r: Tree)
    ensures
        same_nodes(r.0@, t.0@, 0),
    decreases *t, 1nat,
{
    let mut out: Vec<TreeValue> = Vec::new();
    let mut i: usize = 0;
    while i < t.0.len()
        invariant
            i <= t.0@.len(),
            out@.len() == i,
            forall|k: int| 0 <= k < i ==> same_key((#[trigger] out@[k]).key, t.0@[k].key) && same_value(
                out@[k].value,
                t.0@[k].value,
            ),
        decreases t.0.len() - i,
    {
        let n = &t.0[i];
        let c = TreeValue { key: clone_key(&n.key), value: clone_value(&n.value) };
        out.push(c);
        i = i + 1;
    }
    proof { lemma_same_nodes(out@, t.0@, 0); }
    Tree(out)
}

impl<'a> KeyOrValue<'a> {
    /// An owned copy of the step.
    pub fn owned(&self) -> (r: KeyOrValueOwned)
        ensures
            match (*self, r) {
                (KeyOrValue::Key(k), KeyOrValueOwned::Key(c)) => same_key(c, *k),
                (KeyOrValue::Value(v), KeyOrValueOwned::Value(c)) => same_value(c, *v),
                _ => false,
            },
    {
        match self {
            KeyOrValue::Key(v) => KeyOrValueOwned::Key(clone_key(v)),
            KeyOrValue::Value(v) => KeyOrValueOwned::Value(clone_value(v)),
        }
    }
}

impl KeyOrValueOwned {
    /// The key, when the step is one.
    pub fn as_key(&self) -> (r: Option<&EntryKey>)
        ensures
            match self {
                KeyOrValueOwned::Key(k) => r == Some(k),
                KeyOrValueOwned::Value(_) => r is None,
            },
    {
        match self {
            KeyOrValueOwned::Key(key) => Some(key),
            KeyOrValueOwned::Value(_) => None,
        }
    }
}

// ---------------------------------------------------------------------------
// Reading the tree from taplo's document tree.

/// Whether a node turns into a value of this tree with `fuel` (a number or
/// a date turns into nothing): fuel is left; a bool or string has syntax,
/// an invalid node syntax and a text; below it, every key has a range and
/// every value turns into one.
pub open spec fn gt_converts(d: DomView, fuel: nat) -> bool
    decreases fuel, 0nat,
{
    fuel > 0 && match d.kind {
        DomKind::Table { entries, .. } => gt_entries_convert(entries, (fuel - 1) as nat),
        DomKind::Array { items } => forall|i: int| 0 <= i < items.len() ==> gt_converts(#[trigger] items[i], (fuel - 1) as nat),
        DomKind::Bool { .. } => d.range is Some,
        DomKind::Str { .. } => d.range is Some,
        DomKind::Invalid => d.range is Some && d.text is Some,
        DomKind::Other => true,
    }
}

/// Whether every entry of a table turns into one of this tree.
pub open spec fn gt_entries_convert(entries: Seq<(KeyView, DomView)>, fuel: nat) -> bool
    decreases fuel, 1nat,
{
    forall|i: int| 0 <= i < entries.len() ==> (#[trigger] entries[i]).0.ranges.len() > 0 && gt_converts(entries[i].1, fuel)
}

/// Whether a table entry has no content here: its value is a bool, string
/// or invalid node written exactly at the key's first range.
pub open spec fn gt_empty(e: (KeyView, DomView)) -> bool {
    (e.1.kind is Bool || e.1.kind is Str || e.1.kind is Invalid) && e.1.range->0.start == e.0.ranges[0].start
        && e.1.range->0.end == e.0.ranges[0].end
}

/// Whether `v` is the value that a node other than a number or date turns
/// into: a table its tree, an array its kept items' values, a bool or
/// string its value, an invalid node its text as a string (these three with
/// the node's range).
pub open spec fn gt_value_is(v: Value, d: DomView, fuel: nat) -> bool
    decreases fuel, 0nat, 0nat,
{
    match d.kind {
        DomKind::Table { entries, .. } => fuel > 0 && (v matches Value::Tree(t) && gt_nodes_is(t.0@, entries, (fuel - 1) as nat)),
        DomKind::Array { items } => fuel > 0 && (v matches Value::Array(vs) && gt_items_is(vs@, items, (fuel - 1) as nat)),
        DomKind::Bool { value: b } => v matches Value::Bool { value, range } && value == b && same_range(range, d.range->0),
        DomKind::Str { value: s } => v matches Value::String { value, range } && value@ == s && same_range(range, d.range->0),
        DomKind::Invalid => v matches Value::String { value, range } && d.text == Some(value@) && same_range(range, d.range->0),
        DomKind::Other => false,
    }
}

/// Whether `vs` are the values of the items, numbers and dates left out, in
/// order.
pub open spec fn gt_items_is(vs: Seq<Value>, items: Seq<DomView>, fuel: nat) -> bool
    decreases fuel, 1nat, items.len(),
{
    if items.len() == 0 {
        vs.len() == 0
    } else if items.last().kind is Other {
        gt_items_is(vs, items.drop_last(), fuel)
    } else {
        vs.len() > 0 && gt_value_is(vs.last(), items.last(), fuel) && gt_items_is(vs.drop_last(), items.drop_last(), fuel)
    }
}

/// Whether `n` is the entry a table entry turns into: keyed by the key's
/// first range and its text, with no content or the value.
pub open spec fn gt_node_is(n: TreeValue, e: (KeyView, DomView), fuel: nat) -> bool
    decreases fuel, 1nat, 0nat,
{
    &&& same_range(n.key.range, e.0.ranges[0])
    &&& n.key.value@ == e.0.text
    &&& if gt_empty(e) {
        n.value is NoContent
    } else {
        gt_value_is(n.value, e.1, fuel)
    }
}

/// Whether `ns` are the entries the table entries turn into, those whose
/// value is a number or date left out, in order.
pub open spec fn gt_nodes_is(ns: Seq<TreeValue>, entries: Seq<(KeyView, DomView)>, fuel: nat) -> bool
    decreases fuel, 1nat, entries.len() + 1,
{
    if entries.len() == 0 {
        ns.len() == 0
    } else if entries.last().1.kind is Other {
        gt_nodes_is(ns, entries.drop_last(), fuel)
    } else {
        ns.len() > 0 && gt_node_is(ns.last(), entries.last(), fuel) && gt_nodes_is(ns.drop_last(), entries.drop_last(), fuel)
    }
}

/// Turns a node into a value (see `gt_value_is`): `Some(None)` for a number
/// or a date, which the tree leaves out; `None` when it does not turn into
/// one (see `gt_converts`).
fn from_node(node: &taplo::dom::Node, fuel: usize) -> (r: Option<Option<Value>>)
    ensures
        r is Some <==> gt_converts(dom_view(*node), fuel as nat),
        r matches Some(x) ==> (x is None <==> dom_view(*node).kind is Other),
        r matches Some(Some(v)) ==> value_content_ok(v) && gt_value_is(v, dom_view(*node), fuel as nat),
    decreases fuel, 0nat,
{
    let ghost d = dom_view(*node);
    if fuel == 0 {
        return None;
    }
    match node_ref(node) {
        NodeRef::Table(t) => match from_table(t, fuel - 1) {
            Some(tree) => Some(Some(Value::Tree(tree))),
            None => None,
        },
        NodeRef::Array(a) => {
            let items = array_items(a);
            let ghost iv = dom_items(d);
            let mut out: Vec<Value> = Vec::new();
            let mut i: usize = 0;
            while i < items.len()
                invariant
                    i <= items@.len(),
                    fuel > 0,
                    d == dom_view(*node),
                    d.kind is Array,
                    iv == dom_items(d),
                    items@.len() == iv.len(),
                    forall|k: int| 0 <= k < items@.len() ==> dom_view(#[trigger] items@[k]) == iv[k],
                    forall|k: int| 0 <= k < out@.len() ==> value_content_ok(#[trigger] out@[k]),
                    gt_items_is(out@, iv.take(i as int), (fuel - 1) as nat),
                    forall|k: int| 0 <= k < i ==> gt_converts(#[trigger] iv[k], (fuel - 1) as nat),
                decreases items.len() - i,
            {
                let ghost before = out@;
                assert(iv.take(i + 1).drop_last() =~= iv.take(i as int));
                assert(iv.take(i + 1).last() == iv[i as int]);
                match from_node(&items[i], fuel - 1) {
                    Some(Some(v)) => {
                        out.push(v);
                        assert(out@.drop_last() =~= before);
                    },
                    Some(None) => {},
                    None => {
                        assert(!gt_converts(iv[i as int], (fuel - 1) as nat));
                        return None;
                    },
                }
                i = i + 1;
            }
            assert(iv.take(i as int) =~= iv);
            proof { lemma_items_content(out@, 0); }
            Some(Some(Value::Array(out)))
        },
        NodeRef::Bool(b) => match node_range(node) {
            Some(range) => Some(Some(Value::Bool { value: bool_value(b), range: raw_range(range) })),
            None => None,
        },
        NodeRef::Str(s) => match node_range(node) {
            Some(range) => Some(Some(Value::String { value: str_value(s), range: raw_range(range) })),
            None => None,
        },
        NodeRef::Invalid => match (node_range(node), node_text(node)) {
            (Some(range), Some(text)) => Some(Some(Value::String { value: text, range: raw_range(range) })),
            _ => None,
        },
        NodeRef::Other => Some(None),
    }
}

fn raw_range(r: crate::tree::RangeExclusive) -> (o: RangeExclusive)
    ensures
        o.start == r.start && o.end == r.end,
{
    RangeExclusive { start: r.start, end: r.end }
}

proof fn lemma_items_content(items: Seq<Value>, i: nat)
    requires
        forall|k: int| 0 <= k < items.len() ==> value_content_ok(#[trigger] items[k]),
    ensures
        items_content_ok(items, i),
    decreases items.len() - i,
{
    if i < items.len() {
        lemma_items_content(items, i + 1);
    }
}

proof fn lemma_nodes_content(nodes: Seq<TreeValue>, i: nat)
    requires
        forall|k: int| 0 <= k < nodes.len() ==> value_range_of((#[trigger] nodes[k]).value) != Some(nodes[k].key.range)
            && value_content_ok(nodes[k].value),
    ensures
        nodes_content_ok(nodes, i),
    decreases nodes.len() - i,
{
    if i < nodes.len() {
        lemma_nodes_content(nodes, i + 1);
    }
}

/// Turns a table into a tree (see `gt_nodes_is`): each entry whose value the
/// tree keeps, keyed by its first key range; a value whose range is its
/// key's range has no content. `None` when an entry does not turn into one.
fn from_table(table: &taplo::dom::node::Table, fuel: usize) -> (r: Option<Tree>)
    ensures
        r is Some <==> gt_entries_convert(dom_entries(table_dom(*table)), fuel as nat),
        r matches Some(t) ==> nodes_content_ok(t.0@, 0) && gt_nodes_is(t.0@, dom_entries(table_dom(*table)), fuel as nat),
    decreases fuel, 1nat,
{
    let ghost ev = dom_entries(table_dom(*table));
    let entries = table_entries(table);
    assert forall|k: int| 0 <= k < entries@.len() implies key_dom(#[trigger] entries@[k].0) == ev[k].0 && dom_view(entries@[k].1) == ev[k].1 by {
        assert(entries@.len() == dom_entries(table_dom(*table)).len());
        assert(key_dom(entries@[k].0) == dom_entries(table_dom(*table))[k].0);
    }
    let mut out: Vec<TreeValue> = Vec::new();
    let mut i: usize = 0;
    assert(ev.take(0) =~= Seq::<(KeyView, DomView)>::empty());
    while i < entries.len()
        invariant
            i <= entries@.len(),
            ev == dom_entries(table_dom(*table)),
            entries@.len() == ev.len(),
            forall|k: int| 0 <= k < entries@.len() ==> key_dom(#[trigger] entries@[k].0) == ev[k].0 && dom_view(entries@[k].1) == ev[k].1,
            forall|k: int| 0 <= k < out@.len() ==> value_range_of((#[trigger] out@[k]).value) != Some(
                out@[k].key.range,
            ) && value_content_ok(out@[k].value),
            gt_nodes_is(out@, ev.take(i as int), fuel as nat),
            forall|k: int| 0 <= k < i ==> (#[trigger] ev[k]).0.ranges.len() > 0 && gt_converts(ev[k].1, fuel as nat),
        decreases entries.len() - i,
    {
        let (k, v) = &entries[i];
        let ghost before = out@;
        assert(ev.take(i + 1).drop_last() =~= ev.take(i as int));
        assert(ev.take(i + 1).last() == ev[i as int]);
        let ranges = key_ranges(k);
        if ranges.len() == 0 {
            assert(!(ev[i as int].0.ranges.len() > 0));
            return None;
        }
        let key = EntryKey { range: raw_range(ranges[0]), value: key_text(k) };
        match from_node(v, fuel) {
            Some(Some(value)) => {
                let same = match value.range() {
                    Some(r) => r.start == key.range.start && r.end == key.range.end,
                    None => false,
                };
                assert(same == gt_empty(ev[i as int]));
                let value = if same {
                    Value::NoContent
                } else {
                    value
                };
                out.push(TreeValue { key, value });
                assert(out@.drop_last() =~= before);
                assert(gt_node_is(out@.last(), ev[i as int], fuel as nat));
                assert(!(ev[i as int].1.kind is Other));
            },
            Some(None) => {
                assert(ev[i as int].1.kind is Other);
            },
            None => {
                assert(!gt_converts(ev[i as int].1, fuel as nat));
                return None;
            },
        }
        i = i + 1;
    }
    assert(ev.take(i as int) =~= ev);
    proof { lemma_nodes_content(out@, 0); }
    Some(Tree(out))
}

/// The tree of a manifest's text. Nothing comes back when the document's
/// root is not a table, or a node has no syntax, or a key no range.
pub fn parse_toml(src: &str) -> (r: Option<Tree>)
    ensures
        r is Some <==> (taplo_dom(src@).kind is Table && gt_entries_convert(dom_entries(taplo_dom(src@)), usize::MAX as nat)),
        r matches Some(t) ==> nodes_content_ok(t.0@, 0) && gt_nodes_is(t.0@, dom_entries(taplo_dom(src@)), usize::MAX as nat),
{
    let dom = parse_root(src);
    match node_ref(&dom) {
        NodeRef::Table(t) => from_table(t, usize::MAX),
        _ => None,
    }
}

} // verus!
