//! The JSON tree the generator works on: objects keep their entries in order,
//! strings are seen as text, and every other value is carried through unchanged.

use vstd::prelude::*;

verus! {

/// serde_json's value, carried through unopened.
#[verifier::external_type_specification]
#[verifier::external_body]
pub struct ExValue(serde_json::Value);

/// A value that is not taken apart: a string, seen as text, or any other value
/// carried whole.
#[derive(Debug)]
pub enum Leaf {
    Text(String),
    Other(serde_json::Value),
}

/// What a leaf stands for, with text seen as its characters.
pub enum LeafView {
    Text(Seq<char>),
    Other(serde_json::Value),
}

impl View for Leaf {
    type V = LeafView;

    open spec fn view(&self) -> LeafView {
        match self {
            Leaf::Text(s) => LeafView::Text(s@),
            Leaf::Other(v) => LeafView::Other(*v),
        }
    }
}

/// A JSON value: a leaf, or an object given by its entries in order.
#[derive(Debug)]
pub enum Json {
    Leaf(Leaf),
    Object(Vec<(String, Json)>),
}

/// A JSON value as a mathematical tree.
pub enum JsonV {
    Leaf(LeafView),
    Object(Seq<(Seq<char>, JsonV)>),
}

/// The tree a `Json` stands for.
pub open spec fn json_view(j: Json) -> JsonV
    decreases j,
{
    match j {
        Json::Leaf(l) => JsonV::Leaf(l@),
        Json::Object(v) => JsonV::Object(entries_v(v@)),
    }
}

/// The entries of an object as keys and trees.
pub open spec fn entries_v(es: Seq<(String, Json)>) -> Seq<(Seq<char>, JsonV)>
    decreases es,
{
    if es.len() == 0 {
        seq![]
    } else {
        entries_v(es.subrange(0, es.len() - 1)).push((es[es.len() - 1].0@, json_view(es[es.len() - 1].1)))
    }
}

pub broadcast proof fn lemma_entries_v_map(es: Seq<(String, Json)>)
    ensures
        #[trigger] entries_v(es) == es.map_values(|e: (String, Json)| (e.0@, json_view(e.1))),
    decreases es.len(),
{
    if es.len() > 0 {
        let t = es.subrange(0, es.len() - 1);
        lemma_entries_v_map(t);
        assert(entries_v(es) =~= es.map_values(|e: (String, Json)| (e.0@, json_view(e.1))));
    } else {
        assert(entries_v(es) =~= es.map_values(|e: (String, Json)| (e.0@, json_view(e.1))));
    }
}

/// The top level of a parsed document as serde_json gives it: a string, an
/// object's entries each with the raw text of its value (and the object
/// whole), or any other value whole.
pub enum NodeView {
    Text(Seq<char>),
    Other(serde_json::Value),
    Object(Seq<(Seq<char>, Seq<char>)>, serde_json::Value),
}

/// One level of a parsed document, as `NodeView` describes it.
pub enum Node {
    Text(String),
    Other(serde_json::Value),
    Object(Vec<(String, String)>, serde_json::Value),
}

impl View for Node {
    type V = NodeView;

    open spec fn view(&self) -> NodeView {
        match self {
            Node::Text(s) => NodeView::Text(s@),
            Node::Other(v) => NodeView::Other(*v),
            Node::Object(raw, v) => NodeView::Object(raw@.map_values(|e: (String, String)| (e.0@, e.1@)), *v),
        }
    }
}

/// The top level of the document serde_json parses from `text`, or `None`
/// where `text` is not JSON.
pub uninterp spec fn json_node(text: Seq<char>) -> Option<NodeView>;

/// Relies on serde_json::from_str: parses the document and tells its top level
/// apart; an object's entries come in the order of its map, each with its
/// value's raw text (serde_json's RawValue).
#[verifier::external_body]
fn parse_node(text: &str) -> (r: Option<Node>)
    ensures
        match r {
            Some(n) => json_node(text@) == Some(n@),
            None => json_node(text@) is None,
        },
{
    match serde_json::from_str::<serde_json::Value>(text) {
        Ok(serde_json::Value::String(s)) => Some(Node::Text(s)),
        Ok(serde_json::Value::Object(m)) => serde_json::from_str::<std::collections::BTreeMap<String, Box<serde_json::value::RawValue>>>(text)
            .ok()
            .map(|raw| Node::Object(raw.into_iter().map(|(k, v)| (k, v.get().to_string())).collect(), serde_json::Value::Object(m))),
        Ok(other) => Some(Node::Other(other)),
        Err(_) => None,
    }
}

/// The tree of the document in `text`, objects taken apart at most `depth`
/// levels down; `None` where it is not JSON or is nested deeper.
pub open spec fn tree_of(text: Seq<char>, depth: nat) -> Option<JsonV>
    decreases depth, 0nat,
{
    match json_node(text) {
        None => None,
        Some(NodeView::Text(s)) => Some(JsonV::Leaf(LeafView::Text(s))),
        Some(NodeView::Other(v)) => Some(JsonV::Leaf(LeafView::Other(v))),
        Some(NodeView::Object(raw, _)) => if depth == 0 {
            None
        } else {
            match entries_tree(raw, (depth - 1) as nat) {
                Some(es) => Some(JsonV::Object(es)),
                None => None,
            }
        },
    }
}

/// The trees of an object's raw entries, or `None` where one has none.
pub open spec fn entries_tree(raw: Seq<(Seq<char>, Seq<char>)>, depth: nat) -> Option<Seq<(Seq<char>, JsonV)>>
    decreases depth, raw.len() + 1,
{
    if raw.len() == 0 {
        Some(seq![])
    } else {
        match (entries_tree(raw.subrange(0, raw.len() - 1), depth), tree_of(raw[raw.len() - 1].1, depth)) {
            (Some(a), Some(b)) => Some(a.push((raw[raw.len() - 1].0, b))),
            _ => None,
        }
    }
}

/// How many objects deep a document is taken apart; serde_json's parser already
/// refuses documents nested deeper than this.
pub const MAX_DEPTH: usize = 128;

/// The entries of the object that `text` holds, or `None` where it holds no
/// JSON object.
pub open spec fn object_of(text: Seq<char>) -> Option<Seq<(Seq<char>, JsonV)>> {
    match tree_of(text, MAX_DEPTH as nat) {
        Some(JsonV::Object(es)) => Some(es),
        _ => None,
    }
}

/// A value kept whole: strings as text, anything else as serde_json gave it.
pub open spec fn leaf_of_node(n: NodeView) -> LeafView {
    match n {
        NodeView::Text(s) => LeafView::Text(s),
        NodeView::Other(v) => LeafView::Other(v),
        NodeView::Object(_, v) => LeafView::Other(v),
    }
}

/// The values of raw entries, each kept whole, or `None` where one is not JSON.
pub open spec fn leaves_tree(raw: Seq<(Seq<char>, Seq<char>)>) -> Option<Seq<(Seq<char>, LeafView)>>
    decreases raw.len(),
{
    if raw.len() == 0 {
        Some(seq![])
    } else {
        match (leaves_tree(raw.subrange(0, raw.len() - 1)), json_node(raw[raw.len() - 1].1)) {
            (Some(a), Some(n)) => Some(a.push((raw[raw.len() - 1].0, leaf_of_node(n)))),
            _ => None,
        }
    }
}

/// The top-level entries of the object that `text` holds, values kept whole.
pub open spec fn top_level_of(text: Seq<char>) -> Option<Seq<(Seq<char>, LeafView)>> {
    match json_node(text) {
        Some(NodeView::Object(raw, _)) => leaves_tree(raw),
        _ => None,
    }
}

/// The text that serde_json::to_string_pretty gives for the object with these
/// entries.
pub uninterp spec fn pretty_object(entries: Seq<(Seq<char>, LeafView)>) -> Seq<char>;

/// An object's entries as keys and leaves.
pub open spec fn entries_view(r: Seq<(String, Leaf)>) -> Seq<(Seq<char>, LeafView)> {
    r.map_values(|e: (String, Leaf)| (e.0@, e.1@))
}

/// Relies on serde_json::to_string_pretty, on the serde_json::Map collected from
/// the entries (keys sorted, a later entry replacing an earlier one under the
/// same key); a map keyed by strings always serializes.
#[verifier::external_body]
pub(crate) fn pretty_json(entries: &Vec<(String, Leaf)>) -> (r: String)
    ensures
        r@ == pretty_object(entries_view(entries@)),
{
    let map: serde_json::Map<String, serde_json::Value> = entries.iter().map(|(k, l)| (k.clone(), match l {
        Leaf::Text(s) => serde_json::Value::String(s.clone()),
        Leaf::Other(v) => v.clone(),
    })).collect();
    serde_json::to_string_pretty(&serde_json::Value::Object(map)).unwrap_or_default()
}

/// Relies on serde_json::Value's Clone: the copy is the same value.
#[verifier::external_body]
fn copy_value(v: &serde_json::Value) -> (r: serde_json::Value)
    ensures
        r == *v,
{
    v.clone()
}

impl Leaf {
    /// A copy of the leaf.
    pub fn duplicate(&self) -> (r: Leaf)
        ensures
            r@ == self@,
    {
        match self {
            Leaf::Text(s) => Leaf::Text(s.clone()),
            Leaf::Other(v) => Leaf::Other(copy_value(v)),
        }
    }
}

/// The key of each entry.
pub open spec fn keys_of<V>(es: Seq<(Seq<char>, V)>) -> Seq<Seq<char>> {
    es.map_values(|e: (Seq<char>, V)| e.0)
}

proof fn lemma_entries_tree_none(raw: Seq<(Seq<char>, Seq<char>)>, i: int, depth: nat)
    requires
        0 <= i <= raw.len(),
        entries_tree(raw.subrange(0, i), depth) is None,
    ensures
        entries_tree(raw, depth) is None,
    decreases raw.len(),
{
    if i < raw.len() {
        let t = raw.subrange(0, raw.len() - 1);
        assert(t.subrange(0, i) =~= raw.subrange(0, i));
        lemma_entries_tree_none(t, i, depth);
    } else {
        assert(raw.subrange(0, i) =~= raw);
    }
}

proof fn lemma_leaves_tree_none(raw: Seq<(Seq<char>, Seq<char>)>, i: int)
    requires
        0 <= i <= raw.len(),
        leaves_tree(raw.subrange(0, i)) is None,
    ensures
        leaves_tree(raw) is None,
    decreases raw.len(),
{
    if i < raw.len() {
        let t = raw.subrange(0, raw.len() - 1);
        assert(t.subrange(0, i) =~= raw.subrange(0, i));
        lemma_leaves_tree_none(t, i);
    } else {
        assert(raw.subrange(0, i) =~= raw);
    }
}

/// Builds the tree of the document in `text`, taking objects apart at most
/// `depth` levels down.
fn json_from_text(text: &str, depth: usize) -> (r: Option<Json>)
    ensures
        match r {
            Some(j) => tree_of(text@, depth as nat) == Some(json_view(j)),
            None => tree_of(text@, depth as nat) is None,
        },
    decreases depth,
{
    broadcast use lemma_entries_v_map;
    match parse_node(text) {
        None => None,
        Some(Node::Text(s)) => Some(Json::Leaf(Leaf::Text(s))),
        Some(Node::Other(v)) => Some(Json::Leaf(Leaf::Other(v))),
        Some(Node::Object(raw, whole)) => {
            let ghost rv = raw@.map_values(|e: (String, String)| (e.0@, e.1@));
            assert(json_node(text@) == Some(NodeView::Object(rv, whole)));
            if depth == 0 {
                return None;
            }
            let d = depth - 1;
            let mut out: Vec<(String, Json)> = Vec::new();
            let mut i: usize = 0;
            assert(rv.subrange(0, 0) =~= seq![]);
            assert(entries_v(out@) =~= seq![]);
            while i < raw.len()
                invariant
                    i <= raw.len(),
                    d == depth - 1,
                    depth > 0,
                    rv == raw@.map_values(|e: (String, String)| (e.0@, e.1@)),
                    json_node(text@) == Some(NodeView::Object(rv, whole)),
                    entries_tree(rv.subrange(0, i as int), d as nat) == Some(entries_v(out@)),
                decreases raw.len() - i,
            {
                assert(rv.subrange(0, i + 1).subrange(0, i as int) =~= rv.subrange(0, i as int));
                assert(rv[i as int] == (raw@[i as int].0@, raw@[i as int].1@));
                assert(rv.subrange(0, i + 1)[i as int] == rv[i as int]);
                match json_from_text(raw[i].1.as_str(), d) {
                    None => {
                        proof {
                            assert(entries_tree(rv.subrange(0, i + 1), d as nat) is None);
                            lemma_entries_tree_none(rv, i + 1, d as nat);
                        }
                        return None;
                    },
                    Some(child) => {
                        let ghost before = out@;
                        let ghost cv = json_view(child);
                        let key = raw[i].0.clone();
                        assert(key@ == rv[i as int].0);
                        out.push((key, child));
                        proof {
                            lemma_entries_v_map(out@);
                            lemma_entries_v_map(before);
                        }
                        assert(entries_v(out@) =~= entries_v(before).push((rv[i as int].0, cv)));
                    },
                }
                i += 1;
            }
            assert(rv.subrange(0, raw.len() as int) =~= rv);
            Some(Json::Object(out))
        },
    }
}

/// Parses `text` as a JSON document whose top level is an object, keeping its
/// top-level values whole.
pub fn parse_top_level(text: &str) -> (r: Option<Vec<(String, Leaf)>>)
    ensures
        match r {
            Some(es) => top_level_of(text@) == Some(entries_view(es@)),
            None => top_level_of(text@) is None,
        },
{
    match parse_node(text) {
        Some(Node::Object(raw, whole)) => {
            let ghost rv = raw@.map_values(|e: (String, String)| (e.0@, e.1@));
            assert(json_node(text@) == Some(NodeView::Object(rv, whole)));
            let mut out: Vec<(String, Leaf)> = Vec::new();
            let mut i: usize = 0;
            assert(rv.subrange(0, 0) =~= seq![]);
            assert(entries_view(out@) =~= seq![]);
            while i < raw.len()
                invariant
                    i <= raw.len(),
                    rv == raw@.map_values(|e: (String, String)| (e.0@, e.1@)),
                    json_node(text@) == Some(NodeView::Object(rv, whole)),
                    leaves_tree(rv.subrange(0, i as int)) == Some(entries_view(out@)),
                decreases raw.len() - i,
            {
                assert(rv.subrange(0, i + 1).subrange(0, i as int) =~= rv.subrange(0, i as int));
                assert(rv[i as int] == (raw@[i as int].0@, raw@[i as int].1@));
                assert(rv.subrange(0, i + 1)[i as int] == rv[i as int]);
                let leaf = match parse_node(raw[i].1.as_str()) {
                    None => {
                        proof {
                            assert(leaves_tree(rv.subrange(0, i + 1)) is None);
                            lemma_leaves_tree_none(rv, i + 1);
                        }
                        return None;
                    },
                    Some(Node::Text(s)) => Leaf::Text(s),
                    Some(Node::Other(v)) => Leaf::Other(v),
                    Some(Node::Object(_, v)) => Leaf::Other(v),
                };
                let ghost before = out@;
                let ghost lv = leaf@;
                let key = raw[i].0.clone();
                assert(key@ == rv[i as int].0);
                out.push((key, leaf));
                assert(entries_view(out@) =~= entries_view(before).push((rv[i as int].0, lv)));
                i += 1;
            }
            assert(rv.subrange(0, raw.len() as int) =~= rv);
            Some(out)
        },
        _ => None,
    }
}

/// Parses `text` as a JSON document whose top level is an object, taking every
/// nested object apart. `None` where the text holds no JSON object.
pub fn parse_object(text: &str) -> (r: Option<Vec<(String, Json)>>)
    ensures
        match r {
            Some(es) => object_of(text@) == Some(entries_v(es@)),
            None => object_of(text@) is None,
        },
{
    match json_from_text(text, MAX_DEPTH) {
        Some(Json::Object(es)) => Some(es),
        _ => None,
    }
}

} // verus!
