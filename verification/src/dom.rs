//! Reading a TOML document with taplo, and turning taplo's document tree
//! into the tree of keys and values with their ranges.
use vstd::prelude::*;
use taplo::dom::node::DomNode;
use crate::tree::{
    nodes_keys_ranged, items_keys_ranged, tree_keys_ranged, value_keys_ranged, value_range,
    RangeExclusive, TableKind, Tree, TreeValue, Value, closest_range_of,
};
use crate::toml::join_ranges;

verus! {

#[verifier::external_type_specification]
#[verifier::external_body]
pub struct ExParse(taplo::parser::Parse);

#[verifier::external_type_specification]
#[verifier::external_body]
pub struct ExNode(taplo::dom::Node);

#[verifier::external_type_specification]
#[verifier::external_body]
pub struct ExTable(taplo::dom::node::Table);

#[verifier::external_type_specification]
#[verifier::external_body]
pub struct ExKey(taplo::dom::node::Key);

#[verifier::external_type_specification]
#[verifier::external_body]
pub struct ExArray(taplo::dom::node::Array);

#[verifier::external_type_specification]
#[verifier::external_body]
pub struct ExBool(taplo::dom::node::Bool);

#[verifier::external_type_specification]
#[verifier::external_body]
pub struct ExStr(taplo::dom::node::Str);

/// A key of taplo's document, as plain values: every byte range where it is
/// written, and its unescaped text.
pub struct KeyView {
    pub ranges: Seq<RangeExclusive>,
    pub text: Seq<char>,
}

/// A node of taplo's document tree, as plain values: the byte range and the
/// text of its syntax (nothing for a node without syntax), and what kind of
/// node it is, with its contents.
pub struct DomView {
    pub range: Option<RangeExclusive>,
    pub text: Option<Seq<char>>,
    pub kind: DomKind,
}

pub enum DomKind {
    Table { kind: TableKind, entries: Seq<(KeyView, DomView)> },
    Array { items: Seq<DomView> },
    Bool { value: bool },
    Str { value: Seq<char> },
    Invalid,
    /// A number or a date.
    Other,
}

/// The entries of a table node (none for another node).
pub open spec fn dom_entries(d: DomView) -> Seq<(KeyView, DomView)> {
    match d.kind {
        DomKind::Table { entries, .. } => entries,
        _ => Seq::empty(),
    }
}

/// The kind of a table node (a regular one for another node).
pub open spec fn dom_table_kind(d: DomView) -> TableKind {
    match d.kind {
        DomKind::Table { kind, .. } => kind,
        _ => TableKind::Regular,
    }
}

/// The items of an array node (none for another node).
pub open spec fn dom_items(d: DomView) -> Seq<DomView> {
    match d.kind {
        DomKind::Array { items } => items,
        _ => Seq::empty(),
    }
}

/// The value of a bool node (`false` for another node).
pub open spec fn dom_bool(d: DomView) -> bool {
    match d.kind {
        DomKind::Bool { value } => value,
        _ => false,
    }
}

/// The value of a string node (empty for another node).
pub open spec fn dom_str(d: DomView) -> Seq<char> {
    match d.kind {
        DomKind::Str { value } => value,
        _ => Seq::empty(),
    }
}

/// What taplo's parser makes of a text: the document tree of the parse.
pub uninterp spec fn taplo_dom(src: Seq<char>) -> DomView;

/// The document tree that a parse holds.
pub uninterp spec fn parse_dom(p: taplo::parser::Parse) -> DomView;

/// A node of the document tree, with what it holds.
pub uninterp spec fn dom_view(n: taplo::dom::Node) -> DomView;

/// The node that a table belongs to, with what it holds.
pub uninterp spec fn table_dom(t: taplo::dom::node::Table) -> DomView;

/// The node that an array belongs to, with what it holds.
pub uninterp spec fn array_dom(a: taplo::dom::node::Array) -> DomView;

/// The node that a bool belongs to.
pub uninterp spec fn bool_dom(b: taplo::dom::node::Bool) -> DomView;

/// The node that a string belongs to.
pub uninterp spec fn str_dom(s: taplo::dom::node::Str) -> DomView;

/// A key of the document.
pub uninterp spec fn key_dom(k: taplo::dom::node::Key) -> KeyView;

/// Parses a TOML text with `taplo::parser::parse`; the parser keeps going
/// past errors, so every text gives a parse. What it holds is a function
/// of the text alone.
#[verifier::external_body]
fn parse_text(src: &str) -> (r: taplo::parser::Parse)
    ensures
        parse_dom(r) == taplo_dom(src@),
{
    taplo::parser::parse(src)
}

/// Turns a parse into taplo's document tree with `Parse::into_dom`.
#[verifier::external_body]
fn into_dom(p: taplo::parser::Parse) -> (r: taplo::dom::Node)
    ensures
        dom_view(r) == parse_dom(p),
{
    p.into_dom()
}

/// A node of taplo's document tree, by kind.
pub enum NodeRef<'a> {
    Table(&'a taplo::dom::node::Table),
    Array(&'a taplo::dom::node::Array),
    Bool(&'a taplo::dom::node::Bool),
    Str(&'a taplo::dom::node::Str),
    Invalid,
    /// A number or a date.
    Other,
}

/// Tells the kinds of taplo's nodes apart; a table, array, bool or string
/// is that of the node.
#[verifier::external_body]
pub(crate) fn node_ref<'a>(n: &'a taplo::dom::Node) -> (r: NodeRef<'a>)
    ensures
        match r {
            NodeRef::Table(t) => dom_view(*n).kind is Table && table_dom(*t) == dom_view(*n),
            NodeRef::Array(a) => dom_view(*n).kind is Array && array_dom(*a) == dom_view(*n),
            NodeRef::Bool(b) => dom_view(*n).kind is Bool && bool_dom(*b) == dom_view(*n),
            NodeRef::Str(s) => dom_view(*n).kind is Str && str_dom(*s) == dom_view(*n),
            NodeRef::Invalid => dom_view(*n).kind is Invalid,
            NodeRef::Other => dom_view(*n).kind is Other,
        },
{
    match n {
        taplo::dom::Node::Table(t) => NodeRef::Table(t),
        taplo::dom::Node::Array(a) => NodeRef::Array(a),
        taplo::dom::Node::Bool(b) => NodeRef::Bool(b),
        taplo::dom::Node::Str(s) => NodeRef::Str(s),
        taplo::dom::Node::Invalid(_) => NodeRef::Invalid,
        taplo::dom::Node::Integer(_) => NodeRef::Other,
        taplo::dom::Node::Float(_) => NodeRef::Other,
        taplo::dom::Node::Date(_) => NodeRef::Other,
    }
}

/// The byte range of a node's syntax, with `DomNode::syntax`; nothing for a
/// node without syntax. A `TextRange` never starts after its end.
#[verifier::external_body]
pub(crate) fn node_range(n: &taplo::dom::Node) -> (r: Option<RangeExclusive>)
    ensures
        r == dom_view(*n).range,
        r matches Some(x) ==> x.start <= x.end,
{
    n.syntax().map(|s| {
        let t = s.text_range();
        RangeExclusive { start: u32::from(t.start()), end: u32::from(t.end()) }
    })
}

/// The text of a node's syntax; nothing for a node without syntax.
#[verifier::external_body]
pub(crate) fn node_text(n: &taplo::dom::Node) -> (r: Option<String>)
    ensures
        crate::offline::opt_view(r) == dom_view(*n).text,
{
    n.syntax().map(|s| match s {
        taplo::rowan::NodeOrToken::Node(node) => node.text().to_string(),
        taplo::rowan::NodeOrToken::Token(token) => token.text().to_string(),
    })
}

/// The entries of a table, with `Table::entries`, in taplo's order.
#[verifier::external_body]
pub(crate) fn table_entries(t: &taplo::dom::node::Table) -> (r: Vec<(taplo::dom::node::Key, taplo::dom::Node)>)
    ensures
        r@.len() == dom_entries(table_dom(*t)).len(),
        forall|i: int|
            0 <= i < r@.len() ==> key_dom(#[trigger] r@[i].0) == dom_entries(table_dom(*t))[i].0 && dom_view(r@[i].1)
                == dom_entries(table_dom(*t))[i].1,
{
    t.entries().get().iter().map(|(k, v)| (k.clone(), v.clone())).collect()
}

/// The kind of a table, with `Table::kind`.
#[verifier::external_body]
fn table_kind(t: &taplo::dom::node::Table) -> (r: TableKind)
    ensures
        r == dom_table_kind(table_dom(*t)),
{
    match t.kind() {
        taplo::dom::node::TableKind::Regular => TableKind::Regular,
        taplo::dom::node::TableKind::Inline => TableKind::Inline,
        taplo::dom::node::TableKind::Pseudo => TableKind::Pseudo,
    }
}

/// Every byte range where a key is written, with `Key::text_ranges`; a
/// `TextRange` never starts after its end.
#[verifier::external_body]
pub(crate) fn key_ranges(k: &taplo::dom::node::Key) -> (r: Vec<RangeExclusive>)
    ensures
        r@ == key_dom(*k).ranges,
        forall|i: int| 0 <= i < r@.len() ==> (#[trigger] r@[i]).start <= r@[i].end,
{
    k.text_ranges().map(|t| RangeExclusive { start: u32::from(t.start()), end: u32::from(t.end()) }).collect()
}

/// The unescaped text of a key, with `Key::value`.
#[verifier::external_body]
pub(crate) fn key_text(k: &taplo::dom::node::Key) -> (r: String)
    ensures
        r@ == key_dom(*k).text,
{
    k.value().to_string()
}

/// The items of an array, with `Array::items`.
#[verifier::external_body]
pub(crate) fn array_items(a: &taplo::dom::node::Array) -> (r: Vec<taplo::dom::Node>)
    ensures
        r@.len() == dom_items(array_dom(*a)).len(),
        forall|i: int| 0 <= i < r@.len() ==> dom_view(#[trigger] r@[i]) == dom_items(array_dom(*a))[i],
{
    a.items().get().iter().cloned().collect()
}

/// The value of a bool, with `Bool::value`.
#[verifier::external_body]
pub(crate) fn bool_value(b: &taplo::dom::node::Bool) -> (r: bool)
    ensures
        r == dom_bool(bool_dom(*b)),
{
    b.value()
}

/// The unescaped value of a string, with `Str::value`.
#[verifier::external_body]
pub(crate) fn str_value(s: &taplo::dom::node::Str) -> (r: String)
    ensures
        r@ == dom_str(str_dom(*s)),
{
    s.value().to_string()
}

// ---------------------------------------------------------------------------
// What the tree of a document is.

/// Whether a node turns into a value with `fuel`: fuel is left, the node
/// has syntax, and below it every node has syntax, every key a range, and
/// an invalid node a text.
pub open spec fn dom_converts(d: DomView, fuel: nat) -> bool
    decreases fuel, 0nat,
{
    fuel > 0 && d.range is Some && match d.kind {
        DomKind::Table { entries, .. } => entries_convert(entries, (fuel - 1) as nat),
        DomKind::Array { items } => forall|i: int| 0 <= i < items.len() ==> dom_converts(#[trigger] items[i], (fuel - 1) as nat),
        DomKind::Invalid => d.text is Some,
        _ => true,
    }
}

/// Whether every entry of a table turns into an entry of a tree: its key
/// has a range, and its value has syntax and turns into a value.
pub open spec fn entries_convert(entries: Seq<(KeyView, DomView)>, fuel: nat) -> bool
    decreases fuel, 1nat,
{
    forall|i: int|
        0 <= i < entries.len() ==> (#[trigger] entries[i]).0.ranges.len() > 0 && entries[i].1.range is Some
            && dom_converts(entries[i].1, fuel)
}

/// Whether a table node turns into a tree with `fuel`.
pub open spec fn dom_tree_converts(d: DomView, fuel: nat) -> bool {
    d.range is Some && entries_convert(dom_entries(d), fuel)
}

/// The range of the value a node turns into: for a table, its entries'
/// ranges joined (its own when it has none); else its syntax's.
pub open spec fn dom_value_range(d: DomView, fuel: nat) -> RangeExclusive
    decreases fuel, 0nat, 0nat,
{
    match d.kind {
        DomKind::Table { entries, .. } => if fuel > 0 {
            entries_pos(entries, (fuel - 1) as nat, d.range->0)
        } else {
            d.range->0
        },
        _ => d.range->0,
    }
}

/// The entries' ranges joined, or `own` when there is none.
pub open spec fn entries_pos(entries: Seq<(KeyView, DomView)>, fuel: nat, own: RangeExclusive) -> RangeExclusive
    decreases fuel, 1nat, entries.len(),
{
    if entries.len() == 0 {
        own
    } else if entries.len() == 1 {
        entry_pos(entries[0], fuel)
    } else {
        join_ranges(entries_pos(entries.drop_last(), fuel, own), entry_pos(entries.last(), fuel))
    }
}

/// The key range closest before an entry's value.
pub open spec fn entry_closest(e: (KeyView, DomView)) -> RangeExclusive {
    closest_range_of(e.0.ranges, e.1.range->0.end)
}

/// The range of an entry: its value's, its closest key range's and its
/// value node's joined.
pub open spec fn entry_pos(e: (KeyView, DomView), fuel: nat) -> RangeExclusive
    decreases fuel, 1nat, 0nat,
{
    join_ranges(join_ranges(dom_value_range(e.1, fuel), entry_closest(e)), e.1.range->0)
}

/// Whether an entry's value spans exactly its closest key range, so that
/// the entry has no content.
pub open spec fn entry_empty(e: (KeyView, DomView), fuel: nat) -> bool {
    let vr = dom_value_range(e.1, fuel);
    vr.start == entry_closest(e).start && vr.end == entry_closest(e).end
}

/// Whether `v` is the value that the node turns into with `fuel`: a table
/// its tree, an array the values of its items, a bool or string its value,
/// an invalid node its text as a string, a number or date an unknown value;
/// each with its syntax's range.
pub open spec fn dom_value_is(v: Value, d: DomView, fuel: nat) -> bool
    decreases fuel, 0nat,
{
    match d.kind {
        DomKind::Table { .. } => fuel > 0 && (v matches Value::Tree { value } && tree_is(value, d, (fuel - 1) as nat)),
        DomKind::Array { items } => fuel > 0 && (v matches Value::Array { value, range } && range == d.range->0
            && value@.len() == items.len() && forall|i: int|
            0 <= i < items.len() ==> dom_value_is(#[trigger] value@[i], items[i], (fuel - 1) as nat)),
        DomKind::Bool { value: b } => v matches Value::Bool { value, range } && value == b && range == d.range->0,
        DomKind::Str { value: s } => v matches Value::String { value, range } && value@ == s && range == d.range->0,
        DomKind::Invalid => v matches Value::String { value, range } && d.text == Some(value@) && range == d.range->0,
        DomKind::Other => v matches Value::Unknown(r) && r == d.range->0,
    }
}

/// Whether `n` is the entry of the tree that a table entry turns into: the
/// key's ranges and text, the entry's range, and the value (no content when
/// the value spans exactly the closest key range).
pub open spec fn entry_is(n: TreeValue, e: (KeyView, DomView), fuel: nat) -> bool
    decreases fuel, 1nat,
{
    &&& n.key.ranges@ == e.0.ranges
    &&& n.key.value@ == e.0.text
    &&& n.pos == entry_pos(e, fuel)
    &&& if entry_empty(e, fuel) {
        n.value is NoContent
    } else {
        dom_value_is(n.value, e.1, fuel)
    }
}

/// Whether `t` is the tree that a table node turns into: its kind, one
/// entry for each entry of the table in order, and its range.
pub open spec fn tree_is(t: Tree, d: DomView, fuel: nat) -> bool
    decreases fuel, 2nat,
{
    &&& t.kind == dom_table_kind(d)
    &&& t.nodes@.len() == dom_entries(d).len()
    &&& t.pos == entries_pos(dom_entries(d), fuel, d.range->0)
    &&& forall|i: int| 0 <= i < dom_entries(d).len() ==> entry_is(#[trigger] t.nodes@[i], dom_entries(d)[i], fuel)
}

/// The range of a table: all its entries' ranges joined, or its own range
/// when it has no entries.
pub open spec fn joined_positions(nodes: Seq<TreeValue>, own: RangeExclusive) -> RangeExclusive
    decreases nodes.len(),
{
    if nodes.len() == 0 {
        own
    } else if nodes.len() == 1 {
        nodes[0].pos
    } else {
        crate::toml::join_ranges(joined_positions(nodes.drop_last(), own), nodes.last().pos)
    }
}

/// Turns a node into a value (see `dom_value_is`); `fuel` bounds the
/// depth, and nothing comes back for a node without syntax, a key without
/// a range, or a tree deeper than the fuel (see `dom_converts`).
fn value_of(node: &taplo::dom::Node, fuel: usize) -> (r: Option<Value>)
    ensures
        r is Some <==> dom_converts(dom_view(*node), fuel as nat),
        r matches Some(v) ==> value_keys_ranged(v) && dom_value_is(v, dom_view(*node), fuel as nat)
            && value_range(v) == Some(dom_value_range(dom_view(*node), fuel as nat)),
    decreases fuel, 0nat,
{
    let ghost d = dom_view(*node);
    if fuel == 0 {
        return None;
    }
    let range = match node_range(node) {
        Some(r) => r,
        None => {
            return None;
        },
    };
    match node_ref(node) {
        NodeRef::Table(t) => match tree_of(node, t, fuel - 1) {
            Some(tree) => Some(Value::Tree { value: tree }),
            None => None,
        },
        NodeRef::Array(a) => {
            let items = array_items(a);
            let ghost iv = dom_items(d);
            let mut out: Vec<Value> = Vec::new();
            let mut i: usize = 0;
            while i < items.len()
                invariant
                    i <= items@.len(),
                    d == dom_view(*node),
                    d.kind is Array,
                    d.range == Some(range),
                    iv == dom_items(d),
                    items@.len() == iv.len(),
                    forall|k: int| 0 <= k < items@.len() ==> dom_view(#[trigger] items@[k]) == iv[k],
                    out@.len() == i,
                    fuel > 0,
                    forall|k: int| 0 <= k < i ==> value_keys_ranged(#[trigger] out@[k]),
                    forall|k: int| 0 <= k < i ==> dom_value_is(#[trigger] out@[k], iv[k], (fuel - 1) as nat),
                    forall|k: int| 0 <= k < i ==> dom_converts(#[trigger] iv[k], (fuel - 1) as nat),
                decreases items.len() - i,
            {
                match value_of(&items[i], fuel - 1) {
                    Some(v) => out.push(v),
                    None => {
                        assert(!dom_converts(iv[i as int], (fuel - 1) as nat));
                        assert(d.kind is Array);
                        assert(!dom_converts(d, fuel as nat));
                        return None;
                    },
                }
                i = i + 1;
            }
            proof { lemma_items_ranged(out@, 0); }
            Some(Value::Array { value: out, range })
        },
        NodeRef::Bool(b) => Some(Value::Bool { value: bool_value(b), range }),
        NodeRef::Str(s) => Some(Value::String { value: str_value(s), range }),
        NodeRef::Invalid => match node_text(node) {
            Some(text) => Some(Value::String { value: text, range }),
            None => None,
        },
        NodeRef::Other => Some(Value::Unknown(range)),
    }
}

proof fn lemma_items_ranged(items: Seq<Value>, i: nat)
    requires
        forall|k: int| 0 <= k < items.len() ==> value_keys_ranged(#[trigger] items[k]),
    ensures
        items_keys_ranged(items, i),
    decreases items.len() - i,
{
    if i < items.len() {
        lemma_items_ranged(items, i + 1);
    }
}

proof fn lemma_nodes_ranged(nodes: Seq<TreeValue>, i: nat)
    requires
        forall|k: int| 0 <= k < nodes.len() ==> (#[trigger] nodes[k]).key.ranges@.len() > 0
            && value_keys_ranged(nodes[k].value),
    ensures
        nodes_keys_ranged(nodes, i),
    decreases nodes.len() - i,
{
    if i < nodes.len() {
        lemma_nodes_ranged(nodes, i + 1);
    }
}

/// Turns a table node into a tree (see `tree_is`); nothing when the node
/// or an entry's value has no syntax, a key has no range, or a value does
/// not turn into one (see `dom_tree_converts`).
fn tree_of(node: &taplo::dom::Node, table: &taplo::dom::node::Table, fuel: usize) -> (r: Option<Tree>)
    requires
        table_dom(*table) == dom_view(*node),
    ensures
        r is Some <==> dom_tree_converts(dom_view(*node), fuel as nat),
        r matches Some(t) ==> tree_keys_ranged(t) && tree_is(t, dom_view(*node), fuel as nat),
    decreases fuel, 1nat,
{
    let ghost d = dom_view(*node);
    let ghost ev = dom_entries(d);
    let own = match node_range(node) {
        Some(r) => r,
        None => {
            return None;
        },
    };
    let entries = table_entries(table);
    let mut nodes: Vec<TreeValue> = Vec::new();
    let mut pos = own;
    let mut i: usize = 0;
    while i < entries.len()
        invariant
            i <= entries@.len(),
            d == dom_view(*node),
            ev == dom_entries(d),
            entries@.len() == ev.len(),
            d.range == Some(own),
            forall|k: int| 0 <= k < entries@.len() ==> key_dom(#[trigger] entries@[k].0) == ev[k].0 && dom_view(entries@[k].1) == ev[k].1,
            nodes@.len() == i,
            forall|k: int| 0 <= k < i ==> (#[trigger] nodes@[k]).key.ranges@.len() > 0 && value_keys_ranged(
                nodes@[k].value,
            ),
            forall|k: int| 0 <= k < i ==> entry_is(#[trigger] nodes@[k], ev[k], fuel as nat),
            forall|k: int| 0 <= k < i ==> (#[trigger] ev[k]).0.ranges.len() > 0 && ev[k].1.range is Some
                && dom_converts(ev[k].1, fuel as nat),
            pos == joined_positions(nodes@, own),
            pos == entries_pos(ev.take(i as int), fuel as nat, own),
        decreases entries.len() - i,
    {
        let (k, v) = &entries[i];
        let ranges = key_ranges(k);
        if ranges.len() == 0 {
            assert(!(ev[i as int].0.ranges.len() > 0));
            assert(!entries_convert(ev, fuel as nat));
            return None;
        }
        let key = crate::tree::EntryKey { ranges, value: key_text(k) };
        let node_pos = match node_range(v) {
            Some(r) => r,
            None => {
                assert(ev[i as int].1.range is None);
                assert(!entries_convert(ev, fuel as nat));
                return None;
            },
        };
        let value = match value_of(v, fuel) {
            Some(x) => x,
            None => {
                assert(!dom_converts(ev[i as int].1, fuel as nat));
                return None;
            },
        };
        let closest = key.closest_range(node_pos.end);
        let vr = value.range();
        let entry = match vr {
            Some(x) => x.join(&closest),
            None => closest,
        }.join(&node_pos);
        let empty = match vr {
            Some(x) => x.start == closest.start && x.end == closest.end,
            None => false,
        };
        let tv = TreeValue { key, value: if empty { Value::NoContent } else { value }, pos: entry };
        assert(entry_is(tv, ev[i as int], fuel as nat));
        let ghost before = nodes@;
        nodes.push(tv);
        assert(nodes@.drop_last() == before);
        proof {
            assert(ev.take(i + 1).drop_last() =~= ev.take(i as int));
            assert(ev.take(i + 1).last() == ev[i as int]);
            if i == 0 {
                assert(ev.take(1)[0] == ev[0]);
            }
        }
        pos = if i == 0 { entry } else { pos.join(&entry) };
        i = i + 1;
    }
    assert(ev.take(i as int) =~= ev);
    proof { lemma_nodes_ranged(nodes@, 0); }
    Some(Tree { nodes, kind: table_kind(table), pos })
}

/// taplo's document tree of a TOML text.
pub(crate) fn parse_root(src: &str) -> (r: taplo::dom::Node)
    ensures
        dom_view(r) == taplo_dom(src@),
{
    into_dom(parse_text(src))
}

/// The tree of a TOML text: the document's root table, turned into a tree.
/// Nothing comes back when the root is not a table or a part of the
/// document has no syntax or a key has no range.
pub fn parse_tree(src: &str) -> (r: Option<Tree>)
    ensures
        r is Some <==> (taplo_dom(src@).kind is Table && dom_tree_converts(taplo_dom(src@), usize::MAX as nat)),
        r matches Some(t) ==> tree_keys_ranged(t) && tree_is(t, taplo_dom(src@), usize::MAX as nat),
{
    let dom = parse_root(src);
    match node_ref(&dom) {
        NodeRef::Table(t) => tree_of(&dom, t, usize::MAX),
        _ => None,
    }
}

} // verus!
