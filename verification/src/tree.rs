//! The syntax tree of a TOML document with the byte ranges of its keys and
//! values, and the path from the root to the item under a cursor.
use vstd::prelude::*;
use crate::toml::{covers, Positioned};

verus! {

/// A range of byte offsets; both ends count as inside.
#[derive(Debug, PartialEq, Eq, Clone, Copy, Structural)]
pub struct RangeExclusive {
    pub start: u32,
    pub end: u32,
}

#[derive(Debug, Clone, Copy, PartialEq, Eq, Structural)]
pub enum TableKind {
    Regular,
    Inline,
    Pseudo,
}

#[derive(Debug)]
pub struct Tree {
    pub nodes: Vec<TreeValue>,
    pub kind: TableKind,
    pub pos: RangeExclusive,
}

#[derive(Debug)]
pub struct TreeValue {
    pub key: EntryKey,
    pub value: Value,
    pub pos: RangeExclusive,
}

#[derive(Debug, Clone)]
pub struct EntryKey {
    pub ranges: Vec<RangeExclusive>,
    pub value: String,
}

#[derive(Debug)]
#[allow(inconsistent_fields)]
pub enum Value {
    Tree { value: Tree },
    NoContent,
    Array { value: Vec<Value>, range: RangeExclusive },
    String { value: String, range: RangeExclusive },
    Bool { value: bool, range: RangeExclusive },
    Unknown(RangeExclusive),
}

impl RangeExclusive {
    pub fn new(start: u32, end: u32) -> (r: Self)
        ensures
            r.start == start,
            r.end == end,
    {
        Self { start, end }
    }

    /// Whether `offset`, cut to 32 bits, lies in the range.
    pub fn contains(&self, offset: usize) -> (r: bool)
        ensures
            r == crate::toml::covers(self.start, self.end, offset),
    {
        self.start <= offset as u32 && offset as u32 <= self.end
    }

    /// The smallest range that holds both ranges.
    pub fn join(&self, other: &RangeExclusive) -> (r: Self)
        ensures
            r == crate::toml::join_ranges(*self, *other),
    {
        Self {
            start: if self.start <= other.start { self.start } else { other.start },
            end: if self.end >= other.end { self.end } else { other.end },
        }
    }

    /// The empty range at offset 0.
    pub fn default() -> (r: Self)
        ensures
            r.start == 0 && r.end == 0,
    {
        Self { start: 0, end: 0 }
    }
}

/// What an item on a path is.
#[derive(Debug)]
pub enum Type {
    TreeKey(String),
    String(String),
    Bool(bool),
    Unknown,
}

impl Type {
    /// The key or value as text; `unknown` for an unknown value.
    pub fn to_string(&self) -> (r: String)
        ensures
            r@ == match self {
                Type::TreeKey(k) => k@,
                Type::String(v) => v@,
                Type::Bool(b) => if *b { "true"@ } else { "false"@ },
                Type::Unknown => "unknown"@,
            },
    {
        match self {
            Type::TreeKey(k) => k.clone(),
            Type::String(v) => v.clone(),
            Type::Bool(b) => if *b {
                crate::text::owned("true")
            } else {
                crate::text::owned("false")
            },
            Type::Unknown => crate::text::owned("unknown"),
        }
    }
}

/// One item on the path to a cursor, and where it is.
#[derive(Debug)]
pub struct PathValue {
    pub tyoe: Type,
    pub range: RangeExclusive,
}

impl PathValue {
    /// Whether this item is a value: a string, a bool or an unknown value,
    /// and not at the same start as the item `last`.
    pub fn is_value(&self, last: Option<&Self>) -> (r: bool)
        ensures
            r == (!(last matches Some(l) && l.range.start == self.range.start) && !(self.tyoe is TreeKey)),
    {
        if let Some(last) = last {
            if self.range.start == last.range.start {
                return false;
            }
        }
        match self.tyoe {
            Type::TreeKey(_) => false,
            _ => true,
        }
    }
}

/// The key range that ends last at or before `value_start`, the later one
/// among equals; `None` when no range ends there.
pub open spec fn closest_before(ranges: Seq<RangeExclusive>, value_start: u32) -> Option<RangeExclusive>
    decreases ranges.len(),
{
    if ranges.len() == 0 {
        None
    } else {
        let best = closest_before(ranges.drop_last(), value_start);
        let r = ranges.last();
        if r.end <= value_start && (best matches Some(b) ==> r.end >= b.end) {
            Some(r)
        } else {
            best
        }
    }
}

/// The range of a key that belongs to a value starting at `value_start`:
/// the closest one before it, or the first range of the key.
pub open spec fn closest_range_of(ranges: Seq<RangeExclusive>, value_start: u32) -> RangeExclusive {
    match closest_before(ranges, value_start) {
        Some(r) => r,
        None => ranges[0],
    }
}

impl EntryKey {
    /// The range of this key that belongs to a value starting at
    /// `value_start`.
    pub fn closest_range(&self, value_start: u32) -> (r: RangeExclusive)
        requires
            self.ranges@.len() > 0,
        ensures
            r == closest_range_of(self.ranges@, value_start),
    {
        let mut best: Option<RangeExclusive> = None;
        let mut i: usize = 0;
        while i < self.ranges.len()
            invariant
                i <= self.ranges@.len(),
                best == closest_before(self.ranges@.take(i as int), value_start),
            decreases self.ranges.len() - i,
        {
            let r = self.ranges[i];
            assert(self.ranges@.take(i + 1).drop_last() == self.ranges@.take(i as int));
            let take = r.end <= value_start && match best {
                Some(b) => r.end >= b.end,
                None => true,
            };
            if take {
                best = Some(r);
            }
            i = i + 1;
        }
        assert(self.ranges@.take(self.ranges@.len() as int) == self.ranges@);
        match best {
            Some(r) => r,
            None => self.ranges[0],
        }
    }

    /// The key at its range for a value starting at `value_start`.
    pub fn to_positioned(&self, value_start: u32) -> (r: Positioned<String>)
        requires
            self.ranges@.len() > 0,
        ensures
            r.start == closest_range_of(self.ranges@, value_start).start,
            r.end == closest_range_of(self.ranges@, value_start).end,
            r.data == self.value,
    {
        let range = self.closest_range(value_start);
        Positioned { start: range.start, end: range.end, data: self.value.clone() }
    }
}

/// The text at a range.
pub fn str_to_positioned(str: &str, range: &RangeExclusive) -> (r: Positioned<String>)
    ensures
        r.start == range.start,
        r.end == range.end,
        r.data@ == str@,
{
    Positioned { start: range.start, end: range.end, data: crate::text::owned(str) }
}

impl TreeValue {
    /// The range of the whole entry.
    pub fn range(&self) -> (r: RangeExclusive)
        ensures
            r == self.pos,
    {
        RangeExclusive { start: self.pos.start, end: self.pos.end }
    }
}

/// The range of a value, if it has one.
pub open spec fn value_range(v: Value) -> Option<RangeExclusive> {
    match v {
        Value::Tree { value } => Some(value.pos),
        Value::NoContent => None,
        Value::Array { range, .. } => Some(range),
        Value::String { range, .. } => Some(range),
        Value::Bool { range, .. } => Some(range),
        Value::Unknown(r) => Some(r),
    }
}

impl Value {
    /// The string value at its range.
    pub fn as_str(&self) -> (r: Option<Positioned<String>>)
        ensures
            match self {
                Value::String { value, range } => r == Some(Positioned { start: range.start, end: range.end, data: *value }),
                _ => r is None,
            },
    {
        match self {
            Value::String { value, range } => Some(Positioned { start: range.start, end: range.end, data: value.clone() }),
            _ => None,
        }
    }

    pub fn as_tree(&self) -> (r: Option<&Tree>)
        ensures
            match self {
                Value::Tree { value } => r == Some(value),
                _ => r is None,
            },
    {
        match self {
            Value::Tree { value } => Some(value),
            _ => None,
        }
    }

    pub fn as_array(&self) -> (r: Option<&Vec<Value>>)
        ensures
            match self {
                Value::Array { value, .. } => r == Some(value),
                _ => r is None,
            },
    {
        match self {
            Value::Array { value, .. } => Some(value),
            _ => None,
        }
    }

    /// The bool value at its range.
    pub fn as_bool(&self) -> (r: Option<Positioned<bool>>)
        ensures
            match self {
                Value::Bool { value, range } => r == Some(Positioned { start: range.start, end: range.end, data: *value }),
                _ => r is None,
            },
    {
        match self {
            Value::Bool { value, range } => Some(Positioned { start: range.start, end: range.end, data: *value }),
            _ => None,
        }
    }

    pub fn range(&self) -> (r: Option<RangeExclusive>)
        ensures
            r == value_range(*self),
    {
        match self {
            Value::Tree { value } => Some(value.pos),
            Value::NoContent => None,
            Value::Array { range, .. } => Some(*range),
            Value::String { range, .. } => Some(*range),
            Value::Bool { range, .. } => Some(*range),
            Value::Unknown(r) => Some(*r),
        }
    }
}

/// Every key in the value has at least one range.
pub open spec fn value_keys_ranged(v: Value) -> bool
    decreases v, 0nat,
{
    match v {
        Value::Tree { value } => nodes_keys_ranged(value.nodes@, 0),
        Value::Array { value, .. } => items_keys_ranged(value@, 0),
        _ => true,
    }
}

pub open spec fn nodes_keys_ranged(nodes: Seq<TreeValue>, i: nat) -> bool
    decreases nodes, nodes.len() - i,
{
    if i >= nodes.len() {
        true
    } else {
        nodes[i as int].key.ranges@.len() > 0 && value_keys_ranged(nodes[i as int].value) && nodes_keys_ranged(
            nodes,
            i + 1,
        )
    }
}

pub open spec fn items_keys_ranged(items: Seq<Value>, i: nat) -> bool
    decreases items, items.len() - i,
{
    if i >= items.len() {
        true
    } else {
        value_keys_ranged(items[i as int]) && items_keys_ranged(items, i + 1)
    }
}

/// Every key in the tree has at least one range.
pub open spec fn tree_keys_ranged(t: Tree) -> bool {
    nodes_keys_ranged(t.nodes@, 0)
}

/// The first range of `ranges` that holds `pos`.
pub open spec fn first_covering(ranges: Seq<RangeExclusive>, pos: usize) -> Option<RangeExclusive>
    decreases ranges.len(),
{
    if ranges.len() == 0 {
        None
    } else if covers(ranges[0].start, ranges[0].end, pos) {
        Some(ranges[0])
    } else {
        first_covering(ranges.drop_first(), pos)
    }
}

/// An item on a path: what it is, and where.
pub struct PathItem {
    pub tyoe: TypeView,
    pub range: RangeExclusive,
}

pub enum TypeView {
    TreeKey(Seq<char>),
    String(Seq<char>),
    Bool(bool),
    Unknown,
}

impl PathValue {
    pub open spec fn item(self) -> PathItem {
        PathItem {
            tyoe: match self.tyoe {
                Type::TreeKey(k) => TypeView::TreeKey(k@),
                Type::String(v) => TypeView::String(v@),
                Type::Bool(b) => TypeView::Bool(b),
                Type::Unknown => TypeView::Unknown,
            },
            range: self.range,
        }
    }
}

pub open spec fn path_items(p: Seq<PathValue>) -> Seq<PathItem> {
    p.map_values(|v: PathValue| v.item())
}

/// The path from a value to the item at `pos`: the first array element with
/// a path, a string or bool whose range holds `pos`, or an unknown value
/// wherever `pos` is.
pub open spec fn value_path(v: Value, pos: usize) -> Seq<PathItem>
    decreases v, 0nat,
{
    match v {
        Value::Tree { value } => tree_path(value, pos),
        Value::NoContent => seq![],
        Value::Array { value, .. } => items_path(value@, 0, pos),
        Value::String { value, range } => if covers(range.start, range.end, pos) {
            seq![PathItem { tyoe: TypeView::String(value@), range }]
        } else {
            seq![]
        },
        Value::Bool { value, range } => if covers(range.start, range.end, pos) {
            seq![PathItem { tyoe: TypeView::Bool(value), range }]
        } else {
            seq![]
        },
        Value::Unknown(r) => seq![PathItem { tyoe: TypeView::Unknown, range: r }],
    }
}

/// The first non-empty path among the array elements from `i` on.
pub open spec fn items_path(items: Seq<Value>, i: nat, pos: usize) -> Seq<PathItem>
    decreases items, items.len() - i,
{
    if i >= items.len() {
        seq![]
    } else if value_path(items[i as int], pos).len() > 0 {
        value_path(items[i as int], pos)
    } else {
        items_path(items, i + 1, pos)
    }
}

/// The path through an entry: its key when a key range holds `pos`, else its
/// key before the path into its value, if that is not empty.
pub open spec fn node_path(n: TreeValue, pos: usize) -> Option<Seq<PathItem>>
    decreases n, 0nat,
{
    match first_covering(n.key.ranges@, pos) {
        Some(r) => Some(seq![PathItem { tyoe: TypeView::TreeKey(n.key.value@), range: r }]),
        None => {
            let items = value_path(n.value, pos);
            if items.len() == 0 {
                None
            } else {
                Some(
                    seq![PathItem { tyoe: TypeView::TreeKey(n.key.value@), range: closest_range_of(n.key.ranges@, items[0].range.start) }]
                        + items,
                )
            }
        },
    }
}

/// The path through the first entry from `i` on that has one.
pub open spec fn nodes_path(nodes: Seq<TreeValue>, i: nat, pos: usize) -> Option<Seq<PathItem>>
    decreases nodes, nodes.len() - i,
{
    if i >= nodes.len() {
        None
    } else {
        match node_path(nodes[i as int], pos) {
            Some(p) => Some(p),
            None => nodes_path(nodes, i + 1, pos),
        }
    }
}

/// The first entry from `i` on whose whole range holds `pos`.
pub open spec fn first_node_at(nodes: Seq<TreeValue>, i: nat, pos: usize) -> Option<TreeValue>
    decreases nodes.len() - i,
{
    if i >= nodes.len() {
        None
    } else if covers(nodes[i as int].pos.start, nodes[i as int].pos.end, pos) {
        Some(nodes[i as int])
    } else {
        first_node_at(nodes, i + 1, pos)
    }
}

/// The path from a table to the item at `pos`; when no entry has a path, the
/// key of the first entry whose range holds `pos`.
pub open spec fn tree_path(t: Tree, pos: usize) -> Seq<PathItem>
    decreases t, 0nat,
{
    match nodes_path(t.nodes@, 0, pos) {
        Some(p) => p,
        None => match first_node_at(t.nodes@, 0, pos) {
            Some(n) => seq![PathItem { tyoe: TypeView::TreeKey(n.key.value@), range: closest_range_of(n.key.ranges@, n.pos.end) }],
            None => seq![],
        },
    }
}

proof fn lemma_nodes_keys_ranged(nodes: Seq<TreeValue>, i: nat)
    requires
        nodes_keys_ranged(nodes, i),
    ensures
        forall|k: int| i <= k < nodes.len() ==> (#[trigger] nodes[k]).key.ranges@.len() > 0,
        forall|k: int| i <= k < nodes.len() ==> value_keys_ranged((#[trigger] nodes[k]).value),
    decreases nodes.len() - i,
{
    if i < nodes.len() {
        lemma_nodes_keys_ranged(nodes, i + 1);
    }
}

/// Every entry of a well-ranged table has a key range.
pub proof fn lemma_keys_ranged_all(nodes: Seq<TreeValue>)
    requires
        nodes_keys_ranged(nodes, 0),
    ensures
        forall|k: int| 0 <= k < nodes.len() ==> (#[trigger] nodes[k]).key.ranges@.len() > 0,
        forall|k: int| 0 <= k < nodes.len() ==> value_keys_ranged((#[trigger] nodes[k]).value),
{
    lemma_nodes_keys_ranged(nodes, 0);
}

fn first_covering_range(ranges: &Vec<RangeExclusive>, pos: usize) -> (r: Option<RangeExclusive>)
    ensures
        r == first_covering(ranges@, pos),
{
    let mut i: usize = 0;
    assert(ranges@.skip(0) == ranges@);
    while i < ranges.len()
        invariant
            i <= ranges@.len(),
            first_covering(ranges@, pos) == first_covering(ranges@.skip(i as int), pos),
        decreases ranges.len() - i,
    {
        assert(ranges@.skip(i as int).drop_first() == ranges@.skip(i + 1));
        if ranges[i].contains(pos) {
            return Some(ranges[i]);
        }
        i = i + 1;
    }
    None
}

impl Value {
    /// The path from this value to the item at `position`.
    pub fn path(&self, position: usize) -> (r: Vec<PathValue>)
        requires
            value_keys_ranged(*self),
        ensures
            path_items(r@) == value_path(*self, position),
        decreases *self, 0nat,
    {
        match self {
            Value::Tree { value } => value.path(position),
            Value::NoContent => Vec::new(),
            Value::Array { value, .. } => {
                let mut i: usize = 0;
                while i < value.len()
                    invariant
                        i <= value@.len(),
                        value_keys_ranged(*self),
                        *self matches Value::Array { value: v, .. } && v == value,
                        items_keys_ranged(value@, i as nat),
                        value_path(*self, position) == items_path(value@, i as nat, position),
                    decreases value.len() - i,
                {
                    let items = value[i].path(position);
                    if items.len() > 0 {
                        return items;
                    }
                    i = i + 1;
                }
                Vec::new()
            },
            Value::String { value, range } => {
                let mut out: Vec<PathValue> = Vec::new();
                if range.contains(position) {
                    out.push(PathValue { tyoe: Type::String(value.clone()), range: *range });
                }
                assert(path_items(out@) =~= value_path(*self, position));
                out
            },
            Value::Bool { value, range } => {
                let mut out: Vec<PathValue> = Vec::new();
                if range.contains(position) {
                    out.push(PathValue { tyoe: Type::Bool(*value), range: *range });
                }
                assert(path_items(out@) =~= value_path(*self, position));
                out
            },
            Value::Unknown(r) => {
                let mut out: Vec<PathValue> = Vec::new();
                out.push(PathValue { tyoe: Type::Unknown, range: *r });
                assert(path_items(out@) =~= value_path(*self, position));
                out
            },
        }
    }
}

impl TreeValue {
    fn path_through(&self, cursor: usize) -> (r: Option<Vec<PathValue>>)
        requires
            self.key.ranges@.len() > 0,
            value_keys_ranged(self.value),
        ensures
            match r {
                Some(v) => node_path(*self, cursor) == Some(path_items(v@)),
                None => node_path(*self, cursor) is None,
            },
        decreases *self, 0nat,
    {
        match first_covering_range(&self.key.ranges, cursor) {
            Some(r) => {
                let mut out: Vec<PathValue> = Vec::new();
                out.push(PathValue { tyoe: Type::TreeKey(self.key.value.clone()), range: r });
                assert(path_items(out@) =~= seq![PathItem { tyoe: TypeView::TreeKey(self.key.value@), range: r }]);
                Some(out)
            },
            None => {
                let items = self.value.path(cursor);
                if items.len() == 0 {
                    None
                } else {
                    let start = items[0].range.start;
                    let mut out: Vec<PathValue> = Vec::new();
                    out.push(PathValue { tyoe: Type::TreeKey(self.key.value.clone()), range: self.key.closest_range(start) });
                    let mut rest = items;
                    let ghost first = path_items(out@);
                    let ghost tail = path_items(rest@);
                    out.append(&mut rest);
                    assert(path_items(out@) =~= first + tail);
                    Some(out)
                }
            },
        }
    }
}

impl Tree {
    /// The path from this table to the item at `cursor`.
    pub fn path(&self, cursor: usize) -> (r: Vec<PathValue>)
        requires
            tree_keys_ranged(*self),
        ensures
            path_items(r@) == tree_path(*self, cursor),
        decreases *self, 0nat,
    {
        let mut i: usize = 0;
        while i < self.nodes.len()
            invariant
                i <= self.nodes@.len(),
                nodes_keys_ranged(self.nodes@, i as nat),
                nodes_path(self.nodes@, 0, cursor) == nodes_path(self.nodes@, i as nat, cursor),
            decreases self.nodes.len() - i,
        {
            if let Some(p) = self.nodes[i].path_through(cursor) {
                return p;
            }
            i = i + 1;
        }
        proof { lemma_nodes_keys_ranged(self.nodes@, 0); }
        let mut j: usize = 0;
        while j < self.nodes.len()
            invariant
                j <= self.nodes@.len(),
                nodes_keys_ranged(self.nodes@, 0),
                nodes_path(self.nodes@, 0, cursor) is None,
                first_node_at(self.nodes@, 0, cursor) == first_node_at(self.nodes@, j as nat, cursor),
                forall|k: int| 0 <= k < self.nodes@.len() ==> (#[trigger] self.nodes@[k]).key.ranges@.len() > 0,
            decreases self.nodes.len() - j,
        {
            let n = &self.nodes[j];
            if n.pos.contains(cursor) {
                let mut out: Vec<PathValue> = Vec::new();
                out.push(PathValue { tyoe: Type::TreeKey(n.key.value.clone()), range: n.key.closest_range(n.pos.end) });
                assert(path_items(out@) =~= tree_path(*self, cursor));
                return out;
            }
            j = j + 1;
        }
        let out: Vec<PathValue> = Vec::new();
        assert(path_items(out@) =~= tree_path(*self, cursor));
        out
    }
}

} // verus!
