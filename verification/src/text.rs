//! Text helpers: the name a reference points at, lowercasing, and the JSON
//! text of a value.

use crate::json::{items_view, lemma_view_array, lemma_view_object, members_view, Json, JsonView};
use vstd::prelude::*;
use vstd::string::*;

verus! {

/// `serde_json::Value`, built only to be rendered as text.
#[verifier::external_type_specification]
#[verifier::external_body]
pub struct ExValue(serde_json::Value);

/// The lowercase form that `str::to_lowercase` gives a string.
pub uninterp spec fn lowercased(s: Seq<char>) -> Seq<char>;

/// The `serde_json::Value` of one node: of the kind of `v`, with the scalar
/// that `v` holds or, for an array or an object, with `below` for its
/// elements or for the values of its members.
pub uninterp spec fn node_value(v: JsonView, below: Seq<serde_json::Value>) -> serde_json::Value;

/// The compact JSON text that `serde_json` displays a value as.
pub uninterp spec fn value_text(v: serde_json::Value) -> Seq<char>;

/// The values that stand for the children of `v`, in order.
pub open spec fn child_values(v: JsonView) -> Seq<serde_json::Value>
    decreases v, 0nat,
{
    match v {
        JsonView::Array(items) => Seq::new(
            items.len(),
            |i: int|
                if 0 <= i < items.len() {
                    as_value(items[i])
                } else {
                    arbitrary()
                },
        ),
        JsonView::Object(m) => Seq::new(
            m.len(),
            |i: int|
                if 0 <= i < m.len() {
                    as_value(m[i].1)
                } else {
                    arbitrary()
                },
        ),
        _ => Seq::empty(),
    }
}

/// The `serde_json::Value` that stands for `v`, built from the leaves up.
pub open spec fn as_value(v: JsonView) -> serde_json::Value
    decreases v, 1nat,
{
    node_value(v, child_values(v))
}

/// The compact JSON text of a value.
pub open spec fn json_text(v: JsonView) -> Seq<char> {
    value_text(as_value(v))
}

/// Calls `str::to_lowercase`. The result is a function of the characters of
/// `s` alone; nothing more is claimed of it.
#[verifier::external_body]
pub(crate) fn lowercase(s: &str) -> (r: String)
    ensures
        r@ == lowercased(s@),
{
    s.to_lowercase()
}

/// Builds one `serde_json::Value` with the constructor for the kind of `v`:
/// a scalar from what `v` holds, an array from `children`, an object from
/// the keys of `v` paired in order with `children`. The result is a function
/// of `v` and `children` alone; nothing more is claimed of it.
#[verifier::external_body]
pub(crate) fn value_node(v: &Json, children: Vec<serde_json::Value>) -> (r: serde_json::Value)
    ensures
        r == node_value(v@, children@),
{
    match v {
        Json::Null => serde_json::Value::Null,
        Json::Bool(b) => serde_json::Value::Bool(*b),
        Json::Number(n) => serde_json::Value::Number(n.clone()),
        Json::String(s) => serde_json::Value::String(s.clone()),
        Json::Array(_) => serde_json::Value::Array(children),
        Json::Object(members) => serde_json::Value::Object(
            members.iter().map(|m| m.0.clone()).zip(children).collect(),
        ),
    }
}

/// Calls `Display` of `serde_json::Value`, which writes the value as compact
/// JSON text. The result is a function of the value alone; nothing more is
/// claimed of it.
#[verifier::external_body]
pub(crate) fn display(v: &serde_json::Value) -> (r: String)
    ensures
        r@ == value_text(*v),
{
    v.to_string()
}

/// The values that stand for the elements of a list.
pub fn values_of_items(items: &Vec<Json>) -> (r: Vec<serde_json::Value>)
    ensures
        r@ == child_values(JsonView::Array(items_view(items@))),
    decreases items,
{
    let mut out: Vec<serde_json::Value> = Vec::new();
    let mut i: usize = 0;
    while i < items.len()
        invariant
            i <= items.len(),
            out.len() == i,
            forall|k: int| 0 <= k < i ==> out[k] == as_value(items[k]@),
        decreases items.len() - i,
    {
        out.push(to_value(&items[i]));
        i += 1;
    }
    proof {
        assert(out@ =~= child_values(JsonView::Array(items_view(items@))));
    }
    out
}

/// The values that stand for the values of a list of members.
pub fn values_of_members(members: &Vec<(String, Json)>) -> (r: Vec<serde_json::Value>)
    ensures
        r@ == child_values(JsonView::Object(members_view(members@))),
    decreases members,
{
    let mut out: Vec<serde_json::Value> = Vec::new();
    let mut i: usize = 0;
    while i < members.len()
        invariant
            i <= members.len(),
            out.len() == i,
            forall|k: int| 0 <= k < i ==> out[k] == as_value(members[k].1@),
        decreases members.len() - i,
    {
        out.push(to_value(&members[i].1));
        i += 1;
    }
    proof {
        assert(out@ =~= child_values(JsonView::Object(members_view(members@))));
    }
    out
}

/// Builds the `serde_json::Value` that stands for `v`.
pub fn to_value(v: &Json) -> (r: serde_json::Value)
    ensures
        r == as_value(v@),
    decreases v,
{
    let children = match v {
        Json::Array(items) => {
            proof {
                lemma_view_array(*items);
            }
            values_of_items(items)
        },
        Json::Object(members) => {
            proof {
                lemma_view_object(*members);
            }
            values_of_members(members)
        },
        _ => Vec::new(),
    };
    value_node(v, children)
}

/// Renders a value as compact JSON text.
pub fn render(v: &Json) -> (r: String)
    ensures
        r@ == json_text(v@),
{
    let value = to_value(v);
    display(&value)
}

/// Where the last `/`-delimited segment of `path` begins.
pub open spec fn segment_start(path: Seq<char>) -> int
    decreases path.len(),
{
    if path.len() == 0 {
        0
    } else if path.last() == '/' {
        path.len() as int
    } else {
        segment_start(path.drop_last())
    }
}

/// The last `/`-delimited segment of `path`: what follows its last `/`, or
/// all of it where it holds none.
pub open spec fn last_segment(path: Seq<char>) -> Seq<char> {
    path.skip(segment_start(path))
}

/// The last segment begins after a `/` or at the start, and holds no `/`.
pub proof fn lemma_segment_start(path: Seq<char>)
    ensures
        0 <= segment_start(path) <= path.len(),
        segment_start(path) > 0 ==> path[segment_start(path) - 1] == '/',
        forall|i: int| segment_start(path) <= i < path.len() ==> path[i] != '/',
    decreases path.len(),
{
    if path.len() > 0 && path.last() != '/' {
        let rest = path.drop_last();
        lemma_segment_start(rest);
        assert forall|i: int| segment_start(path) <= i < path.len() implies path[i] != '/' by {
            if i < rest.len() {
                assert(path[i] == rest[i]);
            }
        }
        if segment_start(path) > 0 {
            assert(path[segment_start(path) - 1] == rest[segment_start(rest) - 1]);
        }
    }
}

/// `segment_start` is the only index of which `lemma_segment_start` holds.
proof fn lemma_segment_start_is(path: Seq<char>, p: int)
    requires
        0 <= p <= path.len(),
        p > 0 ==> path[p - 1] == '/',
        forall|i: int| p <= i < path.len() ==> path[i] != '/',
    ensures
        segment_start(path) == p,
    decreases path.len(),
{
    if path.len() > 0 && path.last() != '/' {
        let rest = path.drop_last();
        assert forall|i: int| p <= i < rest.len() implies rest[i] != '/' by {
            assert(rest[i] == path[i]);
        }
        if p > 0 {
            assert(rest[p - 1] == path[p - 1]);
        }
        lemma_segment_start_is(rest, p);
    }
}

/// The name that a reference path points at.
pub fn ref_name(path: &str) -> (r: String)
    ensures
        r@ == last_segment(path@),
{
    let n = path.unicode_len();
    let mut i: usize = n;
    while i > 0 && path.get_char(i - 1) != '/'
        invariant
            i <= n,
            n == path@.len(),
            forall|k: int| i <= k < n ==> path@[k] != '/',
        decreases i,
    {
        i -= 1;
    }
    proof {
        lemma_segment_start_is(path@, i as int);
    }
    path.substring_char(i, n).to_owned()
}

} // verus!
