//! Whether a manifest's tree can be read into its declarations, and reading
//! a manifest from its text.
use std::sync::Arc;
use vstd::prelude::*;
use crate::manifest::{
    cfg_fits, entries_ok, entry_key, feature_lists_fit, list_fits, manifest_ok, string_items, target_entries_ok,
    text_of, to_struct, toml_of, toml_view, TomlView,
};
use crate::text::{chars_of, find_char_in, find_char, same_text};
use crate::toml::{arg_fits, dep_prefix, has_dep_prefix, target_texts, utf8_len, PosText, Toml};
use crate::tree::{tree_keys_ranged, value_keys_ranged, Tree, TreeValue, Value};

verus! {

/// Whether an entry of a feature list written at `start` keeps its offsets
/// within `u32`.
fn arg_text_fits(start: u32, end: u32, text: &String) -> (r: bool)
    ensures
        r == arg_fits(PosText { start, end, text: text@ }),
{
    let cs = chars_of(text.as_str());
    let n = cs.len();
    if n >= 4 && cs[0] == 'd' && cs[1] == 'e' && cs[2] == 'p' && cs[3] == ':' {
        assert(cs@.take(4) =~= dep_prefix());
        return true;
    }
    assert(!has_dep_prefix(text@)) by {
        if has_dep_prefix(text@) {
            assert(cs@[0] == cs@.take(4)[0] && cs@[1] == cs@.take(4)[1]);
            assert(cs@[2] == cs@.take(4)[2] && cs@[3] == cs@.take(4)[3]);
        }
    }
    assert(cs@.subrange(0, n as int) == cs@);
    match find_char_in(&cs, 0, n, '/') {
        Some(i) => {
            assert(find_char(cs@, '/') == Some(i as int));
            let mut acc: u64 = start as u64;
            let mut k: usize = 0;
            while k < i
                invariant
                    k <= i < cs@.len(),
                    cs@ == text@,
                    find_char(cs@, '/') == Some(i as int),
                    !has_dep_prefix(text@),
                    acc == start + utf8_len(cs@.take(k as int)),
                    acc <= 4294967295u64,
                decreases i - k,
            {
                proof {
                    assert(cs@.take(k + 1) == cs@.take(k as int).push(cs@[k as int]));
                    crate::text::lemma_encode_push(cs@.take(k as int), cs@[k as int]);
                }
                acc = acc + crate::text::char_width(cs[k]) as u64;
                if acc > 4294967295u64 {
                    proof {
                        crate::position::lemma_encode_concat(cs@.take(k + 1), cs@.subrange(k + 1, i as int));
                        assert(cs@.take(k + 1) + cs@.subrange(k + 1, i as int) == cs@.take(i as int));
                        assert(utf8_len(cs@.take(i as int)) >= utf8_len(cs@.take(k + 1)));
                        assert(start + utf8_len(cs@.take(i as int)) > u32::MAX);
                        assert(cs@ == text@);
                        assert(find_char(text@, '/') == Some(i as int));
                        assert(!arg_fits(PosText { start, end, text: text@ }));
                    }
                    return false;
                }
                k = k + 1;
            }
            true
        },
        None => true,
    }
}

/// Whether every string of an array fits as an entry of a feature list.
fn list_ok(v: &Value) -> (r: bool)
    ensures
        r == list_fits(*v),
{
    match v {
        Value::Array { value, .. } => {
            let mut i: usize = 0;
            while i < value.len()
                invariant
                    i <= value@.len(),
                    *v matches Value::Array { value: vv, .. } && vv == *value,
                    forall|j: int| 0 <= j < string_items(value@.take(i as int)).len() ==> arg_fits(
                        #[trigger] string_items(value@.take(i as int))[j],
                    ),
                decreases value.len() - i,
            {
                assert(value@.take(i + 1).drop_last() == value@.take(i as int));
                assert(value@.take(i + 1).last() == value@[i as int]);
                match &value[i] {
                    Value::String { value: s, range } => {
                        let ghost items = string_items(value@.take(i + 1));
                        assert(items == string_items(value@.take(i as int)).push(text_of(*range, *s)));
                        if !arg_text_fits(range.start, range.end, s) {
                            proof {
                                lemma_string_items_prefix(value@, i + 1);
                                let k = items.len() - 1;
                                assert(string_items(value@)[k] == items[k]);
                                assert(!arg_fits(string_items(value@)[k]));
                            }
                            return false;
                        }
                    },
                    _ => {
                        assert(string_items(value@.take(i + 1)) == string_items(value@.take(i as int)));
                    },
                }
                i = i + 1;
            }
            assert(value@.take(value@.len() as int) == value@);
            true
        },
        _ => true,
    }
}

proof fn lemma_string_items_prefix(vs: Seq<Value>, k: int)
    requires
        0 <= k <= vs.len(),
    ensures
        string_items(vs.take(k)).len() <= string_items(vs).len(),
        forall|j: int| 0 <= j < string_items(vs.take(k)).len() ==> string_items(vs.take(k))[j] == string_items(vs)[j],
    decreases vs.len() - k,
{
    if k < vs.len() {
        lemma_string_items_prefix(vs, k + 1);
        assert(vs.take(k + 1).drop_last() == vs.take(k));
    } else {
        assert(vs.take(k) == vs);
    }
}

fn features_ok(v: &Value) -> (r: bool)
    ensures
        r == match *v {
            Value::Tree { value } => feature_lists_fit(value.nodes@),
            _ => true,
        },
{
    match v {
        Value::Tree { value } => {
            let mut i: usize = 0;
            while i < value.nodes.len()
                invariant
                    i <= value.nodes@.len(),
                    *v matches Value::Tree { value: t } && t == *value,
                    forall|j: int| 0 <= j < i ==> list_fits(#[trigger] value.nodes@[j].value),
                decreases value.nodes.len() - i,
            {
                if !list_ok(&value.nodes[i].value) {
                    assert(!list_fits(value.nodes@[i as int].value));
                    return false;
                }
                i = i + 1;
            }
            true
        },
        _ => true,
    }
}

/// Whether a key names a platform condition: `cfg(...)`.
fn is_cfg_key(key: &String) -> (r: bool)
    ensures
        r == (key@.len() >= 5 && key@.last() == ')' && key@.take(4) == "cfg("@),
{
    let cs = chars_of(key.as_str());
    let n = cs.len();
    proof { reveal_strlit("cfg("); }
    if n >= 5 && cs[n - 1] == ')' && cs[0] == 'c' && cs[1] == 'f' && cs[2] == 'g' && cs[3] == '(' {
        assert(cs@.take(4) =~= "cfg("@);
        true
    } else {
        proof {
            if key@.len() >= 5 && key@.take(4) == "cfg("@ {
                assert(cs@[0] == cs@.take(4)[0] && cs@[1] == cs@.take(4)[1]);
                assert(cs@[2] == cs@.take(4)[2] && cs@[3] == cs@.take(4)[3]);
            }
        }
        false
    }
}

fn target_entry_ok(sub: &TreeValue) -> (r: bool)
    requires
        sub.key.ranges@.len() > 0,
        value_keys_ranged(sub.value),
    ensures
        r == (cfg_fits(*sub) && match sub.value {
            Value::Tree { value } => manifest_ok(value),
            _ => false,
        }),
    decreases *sub, 0nat,
{
    let cfg = if is_cfg_key(&sub.key.value) {
        let k = sub.key.closest_range(sub.pos.end);
        k.start <= 4294967291u32 && k.end >= 1
    } else {
        true
    };
    cfg && sub_tree_ok(&sub.value)
}

fn sub_tree_ok(v: &Value) -> (r: bool)
    requires
        value_keys_ranged(*v),
    ensures
        r == match *v {
            Value::Tree { value } => manifest_ok(value),
            _ => false,
        },
    decreases *v, 0nat,
{
    match v {
        Value::Tree { value } => tree_ok(value),
        _ => false,
    }
}

fn targets_ok(v: &Value) -> (r: bool)
    requires
        value_keys_ranged(*v),
    ensures
        r == match *v {
            Value::Tree { value } => target_entries_ok(value.nodes@, value.nodes@.len()),
            _ => false,
        },
    decreases *v, 0nat,
{
    match v {
        Value::Tree { value } => targets_of(value),
        _ => false,
    }
}

fn targets_of(t: &Tree) -> (r: bool)
    requires
        tree_keys_ranged(*t),
    ensures
        r == target_entries_ok(t.nodes@, t.nodes@.len()),
    decreases *t, 0nat,
{
    proof { crate::tree::lemma_keys_ranged_all(t.nodes@); }
    let mut i: usize = 0;
    while i < t.nodes.len()
        invariant
            i <= t.nodes@.len(),
            forall|k: int| 0 <= k < t.nodes@.len() ==> (#[trigger] t.nodes@[k]).key.ranges@.len() > 0,
            forall|k: int| 0 <= k < t.nodes@.len() ==> value_keys_ranged((#[trigger] t.nodes@[k]).value),
            target_entries_ok(t.nodes@, i as nat),
        decreases t.nodes.len() - i,
    {
        if !target_entry_ok(&t.nodes[i]) {
            proof {
                if target_entries_ok(t.nodes@, t.nodes@.len()) {
                    lemma_target_entries_prefix(t.nodes@, (i + 1) as nat, t.nodes@.len());
                }
            }
            return false;
        }
        i = i + 1;
    }
    true
}

proof fn lemma_target_entries_prefix(subs: Seq<TreeValue>, m: nat, n: nat)
    requires
        m <= n <= subs.len(),
        target_entries_ok(subs, n),
    ensures
        target_entries_ok(subs, m),
    decreases n - m,
{
    if m < n {
        lemma_target_entries_prefix(subs, m, (n - 1) as nat);
    }
}

proof fn lemma_entries_prefix(nodes: Seq<TreeValue>, m: nat, n: nat)
    requires
        m <= n <= nodes.len(),
        entries_ok(nodes, n),
    ensures
        entries_ok(nodes, m),
    decreases n - m,
{
    if m < n {
        lemma_entries_prefix(nodes, m, (n - 1) as nat);
    }
}

fn entry_ok(e: &TreeValue) -> (r: bool)
    requires
        value_keys_ranged(e.value),
    ensures
        r == ((e.key.value@ == "features"@ ==> match e.value {
            Value::Tree { value } => feature_lists_fit(value.nodes@),
            _ => true,
        }) && (e.key.value@ == "target"@ ==> match e.value {
            Value::Tree { value } => target_entries_ok(value.nodes@, value.nodes@.len()),
            _ => false,
        })),
    decreases *e, 0nat,
{
    let f = if same_text(e.key.value.as_str(), "features") {
        features_ok(&e.value)
    } else {
        true
    };
    let t = if same_text(e.key.value.as_str(), "target") {
        targets_ok(&e.value)
    } else {
        true
    };
    f && t
}

/// Whether a manifest's tree can be read (see `manifest_ok`).
pub fn tree_ok(t: &Tree) -> (r: bool)
    requires
        tree_keys_ranged(*t),
    ensures
        r == manifest_ok(*t),
    decreases *t, 0nat,
{
    proof { crate::tree::lemma_keys_ranged_all(t.nodes@); }
    let mut i: usize = 0;
    while i < t.nodes.len()
        invariant
            i <= t.nodes@.len(),
            forall|k: int| 0 <= k < t.nodes@.len() ==> value_keys_ranged((#[trigger] t.nodes@[k]).value),
            entries_ok(t.nodes@, i as nat),
        decreases t.nodes.len() - i,
    {
        if !entry_ok(&t.nodes[i]) {
            proof {
                if entries_ok(t.nodes@, t.nodes@.len()) {
                    lemma_entries_prefix(t.nodes@, (i + 1) as nat, t.nodes@.len());
                }
            }
            return false;
        }
        i = i + 1;
    }
    true
}

/// What a manifest text declares: its tree read with taplo and then into
/// declarations; nothing when the text gives no tree or the tree cannot be
/// read.
pub fn parse_manifest(src: &str) -> (r: Option<Toml>)
    ensures
        r is Some ==> crate::dom::taplo_dom(src@).kind is Table && crate::dom::dom_tree_converts(
            crate::dom::taplo_dom(src@),
            usize::MAX as nat,
        ),
        r matches Some(m) ==> exists|t: Tree|
            crate::dom::tree_is(t, crate::dom::taplo_dom(src@), usize::MAX as nat) && tree_keys_ranged(t) && manifest_ok(t)
                && toml_view(m) == toml_of(t, seq![]),
        r is None && crate::dom::taplo_dom(src@).kind is Table && crate::dom::dom_tree_converts(
            crate::dom::taplo_dom(src@),
            usize::MAX as nat,
        ) ==> exists|t: Tree| crate::dom::tree_is(t, crate::dom::taplo_dom(src@), usize::MAX as nat) && !manifest_ok(t),
{
    let tree = match crate::dom::parse_tree(src) {
        Some(t) => t,
        None => {
            return None;
        },
    };
    if !tree_ok(&tree) {
        return None;
    }
    let targets: Arc<Vec<crate::toml::Positioned<crate::toml::Target>>> = Arc::new(Vec::new());
    assert(target_texts(targets@) =~= Seq::<PosText>::empty());
    let m = to_struct(&tree, targets);
    Some(m)
}

} // verus!
