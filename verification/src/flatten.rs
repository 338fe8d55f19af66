//! Reference flattening: every `$ref` is replaced by the members of the
//! definition it names, taken from the table that the root declares.

use crate::json::{
    clone_members, find_key, get, has_key, items_view, lemma_has_key, lemma_position,
    lemma_position_is, lemma_position_push, position, lemma_view_array, lemma_view_object, lemma_without_absent, lemma_without_members, members_view,
    remove_key, without, Json, JsonView, Members,
};
use crate::text::{last_segment, ref_name};
use vstd::prelude::*;
use vstd::string::*;

verus! {

/// The key of a reference.
pub open spec fn ref_key() -> Seq<char> {
    "$ref"@
}

/// The first key under which a root declares definitions.
pub open spec fn defs_key() -> Seq<char> {
    "$defs"@
}

/// The second key under which a root declares definitions.
pub open spec fn definitions_key() -> Seq<char> {
    "definitions"@
}

/// The members of an object; none for any other value or a missing one.
pub open spec fn members_of(v: Option<JsonView>) -> Members {
    match v {
        Some(JsonView::Object(m)) => m,
        _ => Seq::empty(),
    }
}

/// The definition table that a root object declares: the members of its
/// `definitions` object, then those of its `$defs` object. A lookup takes
/// the first member with a name, so `definitions` wins where both have it.
pub open spec fn table_of(root: Members) -> Members {
    members_of(get(root, definitions_key())) + members_of(get(root, defs_key()))
}

/// The members of the definition that the `$ref` of `m` names, where `m` has
/// a `$ref` that is a string, the table has the name that is its last path
/// segment, and the definition under that name is an object.
pub open spec fn target(m: Members, table: Members) -> Option<Members> {
    match get(m, ref_key()) {
        Some(JsonView::String(path)) => match get(table, last_segment(path)) {
            Some(JsonView::Object(d)) => Some(d),
            _ => None,
        },
        _ => None,
    }
}

/// `m`, followed by each member of `extra` whose key nothing before it has.
pub open spec fn merge(m: Members, extra: Members) -> Members
    decreases extra.len(),
{
    if extra.len() == 0 {
        m
    } else {
        let merged = merge(m, extra.drop_last());
        if has_key(merged, extra.last().0) {
            merged
        } else {
            merged.push(extra.last())
        }
    }
}

/// An object's members with every reference below them flattened. The
/// values of the members are flattened in place; `$ref` is dropped; where it
/// resolves and `depth` allows, the flattened members of the definition
/// follow, each unless its key is already there. Resolutions nest at most
/// `depth` deep, which bounds the work on definitions that refer to
/// themselves.
pub open spec fn flatten_object(m: Members, table: Members, depth: nat) -> Members
    decreases depth, m, 1nat,
{
    let base = without(flatten_members(m, table, depth), ref_key());
    match target(m, table) {
        Some(d) => if depth > 0 {
            merge(base, flatten_object(d, table, (depth - 1) as nat))
        } else {
            base
        },
        None => base,
    }
}

/// The members of an object, each with its value flattened.
pub open spec fn flatten_members(m: Members, table: Members, depth: nat) -> Members
    decreases depth, m, 0nat,
{
    Seq::new(
        m.len(),
        |i: int|
            (
                m[i].0,
                if 0 <= i < m.len() {
                    flatten_value(m[i].1, table, depth)
                } else {
                    JsonView::Null
                },
            ),
    )
}

/// A member's value with the references below it flattened: an object as
/// `flatten_object` says, an array element by element where the element is
/// an object, anything else unchanged.
pub open spec fn flatten_value(v: JsonView, table: Members, depth: nat) -> JsonView
    decreases depth, v, 0nat,
{
    match v {
        JsonView::Object(m) => JsonView::Object(flatten_object(m, table, depth)),
        JsonView::Array(items) => JsonView::Array(
            Seq::new(
                items.len(),
                |i: int|
                    if 0 <= i < items.len() {
                        match items[i] {
                            JsonView::Object(m) => JsonView::Object(
                                flatten_object(m, table, depth),
                            ),
                            other => other,
                        }
                    } else {
                        JsonView::Null
                    },
            ),
        ),
        other => other,
    }
}

/// Every member of `merge(m, extra)` is a member of `m` or of `extra`, and
/// so is every key.
pub proof fn lemma_merge_members(m: Members, extra: Members)
    ensures
        forall|i: int|
            0 <= i < merge(m, extra).len() ==> m.contains(#[trigger] merge(m, extra)[i])
                || extra.contains(merge(m, extra)[i]),
        forall|key: Seq<char>| #[trigger]
            has_key(merge(m, extra), key) ==> has_key(m, key) || has_key(extra, key),
    decreases extra.len(),
{
    let all = merge(m, extra);
    if extra.len() == 0 {
        assert forall|i: int| 0 <= i < all.len() implies m.contains(#[trigger] all[i]) by {
            assert(m[i] == all[i]);
        }
    } else {
        let rest = extra.drop_last();
        let merged = merge(m, rest);
        lemma_merge_members(m, rest);
        assert forall|i: int| 0 <= i < all.len() implies m.contains(#[trigger] all[i])
            || extra.contains(all[i]) by {
            if i < merged.len() {
                assert(all[i] == merged[i]);
                if rest.contains(merged[i]) {
                    let j = rest.index_of(merged[i]);
                    assert(extra[j] == all[i]);
                }
            } else {
                assert(extra[extra.len() - 1] == all[i]);
            }
        }
        assert forall|key: Seq<char>| #[trigger] has_key(all, key) implies has_key(m, key)
            || has_key(extra, key) by {
            lemma_position_push(merged, extra.last(), key);
            lemma_has_key(rest, key);
            lemma_has_key(extra, key);
            if has_key(merged, key) {
                if has_key(rest, key) {
                    let j = choose|j: int| 0 <= j < rest.len() && (#[trigger] rest[j]).0 == key;
                    assert(extra[j].0 == key);
                }
            } else {
                assert(extra[extra.len() - 1].0 == key);
            }
        }
    }
}

/// Flattening the values leaves every lookup by key where it was.
pub proof fn lemma_flatten_members_position(m: Members, table: Members, depth: nat, key: Seq<char>)
    ensures
        position(flatten_members(m, table, depth), key) == position(m, key),
        has_key(flatten_members(m, table, depth), key) == has_key(m, key),
{
    lemma_position(m, key);
    let fm = flatten_members(m, table, depth);
    assert forall|j: int| 0 <= j < position(m, key) implies (#[trigger] fm[j]).0 != key by {
        assert(fm[j].0 == m[j].0);
    }
    lemma_position_is(fm, key, position(m, key));
}

/// Whether no object that flattening reaches in `v` has a `$ref`: `v`
/// itself, the values of its members and the objects in its arrays, at any
/// depth.
pub open spec fn ref_free(v: JsonView) -> bool
    decreases v,
{
    match v {
        JsonView::Object(m) => {
            &&& !has_key(m, ref_key())
            &&& forall|i: int| 0 <= i < m.len() ==> ref_free(#[trigger] m[i].1)
        },
        JsonView::Array(items) => forall|i: int|
            0 <= i < items.len() && items[i] is Object ==> ref_free(#[trigger] items[i]),
        _ => true,
    }
}

/// Flattening leaves no `$ref` in the objects that it reaches.
pub proof fn lemma_flatten_object_ref_free(m: Members, table: Members, depth: nat)
    ensures
        ref_free(JsonView::Object(flatten_object(m, table, depth))),
    decreases depth, m, 1nat,
{
    let kept = flatten_members(m, table, depth);
    let base = without(kept, ref_key());
    lemma_without_absent(kept, ref_key());
    lemma_without_members(kept, ref_key());
    assert forall|i: int| 0 <= i < base.len() implies ref_free(#[trigger] base[i].1) by {
        let j = kept.index_of(base[i]);
        lemma_flatten_value_ref_free(m[j].1, table, depth);
    }
    match target(m, table) {
        Some(d) => {
            if depth > 0 {
                let extra = flatten_object(d, table, (depth - 1) as nat);
                lemma_flatten_object_ref_free(d, table, (depth - 1) as nat);
                lemma_merge_members(base, extra);
                let all = merge(base, extra);
                assert forall|i: int| 0 <= i < all.len() implies ref_free(#[trigger] all[i].1) by {
                    if base.contains(all[i]) {
                        let j = base.index_of(all[i]);
                        assert(ref_free(base[j].1));
                    } else {
                        let j = extra.index_of(all[i]);
                        assert(ref_free(extra[j].1));
                    }
                }
            }
        },
        None => {},
    }
}

/// Flattening a value leaves no `$ref` in the objects that it reaches.
pub proof fn lemma_flatten_value_ref_free(v: JsonView, table: Members, depth: nat)
    ensures
        ref_free(flatten_value(v, table, depth)),
    decreases depth, v, 0nat,
{
    match v {
        JsonView::Object(m) => {
            lemma_flatten_object_ref_free(m, table, depth);
        },
        JsonView::Array(items) => {
            let out = flatten_value(v, table, depth)->Array_0;
            assert forall|i: int| 0 <= i < out.len() && out[i] is Object implies ref_free(
                #[trigger] out[i],
            ) by {
                match items[i] {
                    JsonView::Object(m) => {
                        lemma_flatten_object_ref_free(m, table, depth);
                    },
                    _ => {},
                }
            }
        },
        _ => {},
    }
}

/// Looks up the definition that the `$ref` of `members` names.
pub fn resolve<'a>(members: &Vec<(String, Json)>, table: &'a Vec<(String, Json)>) -> (r: Option<
    &'a Vec<(String, Json)>,
>)
    ensures
        match r {
            Some(d) => target(members_view(members@), members_view(table@)) == Some(
                members_view(d@),
            ),
            None => target(members_view(members@), members_view(table@)) is None,
        },
{
    let key = String::from_str("$ref");
    match find_key(members, &key) {
        Some(i) => match &members[i].1 {
            Json::String(path) => {
                let name = ref_name(path.as_str());
                match find_key(table, &name) {
                    Some(t) => match &table[t].1 {
                        Json::Object(d) => {
                            proof {
                                lemma_view_object(*d);
                            }
                            Some(d)
                        },
                        _ => None,
                    },
                    None => None,
                }
            },
            _ => None,
        },
        None => None,
    }
}

/// Appends each member of `extra` whose key `members` does not have yet.
pub fn merge_absent(members: &mut Vec<(String, Json)>, extra: Vec<(String, Json)>)
    ensures
        members_view(final(members)@) == merge(
            members_view(old(members)@),
            members_view(extra@),
        ),
{
    let ghost wanted = members_view(extra@);
    let mut extra = extra;
    let mut i: usize = 0;
    proof {
        assert(wanted.take(0) =~= Seq::empty());
    }
    while i < extra.len()
        invariant
            i <= extra.len(),
            extra.len() == wanted.len(),
            forall|k: int| i <= k < extra.len() ==> members_view(extra@)[k] == wanted[k],
            members_view(members@) == merge(members_view(old(members)@), wanted.take(i as int)),
        decreases extra.len() - i,
    {
        let mut entry = (String::new(), Json::Null);
        core::mem::swap(&mut extra[i], &mut entry);
        proof {
            assert(wanted.take(i + 1).drop_last() =~= wanted.take(i as int));
            assert((entry.0@, entry.1@) == wanted[i as int]);
        }
        if find_key(members, &entry.0).is_none() {
            let ghost before = members_view(members@);
            members.push(entry);
            proof {
                assert(members_view(members@) =~= before.push(wanted[i as int]));
            }
        }
        i += 1;
    }
    proof {
        assert(wanted.take(i as int) =~= wanted);
    }
}

/// Flattens the references in an object's members, in place.
pub fn flatten_refs(members: &mut Vec<(String, Json)>, table: &Vec<(String, Json)>, depth: usize)
    ensures
        members_view(final(members)@) == flatten_object(
            members_view(old(members)@),
            members_view(table@),
            depth as nat,
        ),
    decreases depth, *old(members), 1nat,
{
    let ghost orig = members_view(members@);
    let ghost tab = members_view(table@);
    let definition = resolve(members, table);
    let mut i: usize = 0;
    while i < members.len()
        invariant
            i <= members.len(),
            members.len() == old(members).len(),
            orig == members_view(old(members)@),
            tab == members_view(table@),
            forall|k: int| i <= k < members.len() ==> members[k] == old(members)[k],
            forall|k: int|
                0 <= k < i ==> members_view(members@)[k] == (
                    orig[k].0,
                    flatten_value(orig[k].1, tab, depth as nat),
                ),
        decreases members.len() - i,
    {
        let ghost before = members@;
        flatten_value_in_place(&mut members[i].1, table, depth);
        proof {
            assert(members@[i as int].0 == before[i as int].0);
            assert forall|k: int| 0 <= k < members.len() && k != i implies members@[k]
                == before[k] by {}
            assert(members_view(before)[i as int].1 == orig[i as int].1);
            assert forall|k: int| 0 <= k < i implies members_view(members@)[k] == (
                orig[k].0,
                flatten_value(orig[k].1, tab, depth as nat),
            ) by {
                assert(members_view(members@)[k] == members_view(before)[k]);
            }
        }
        i += 1;
    }
    let key = String::from_str("$ref");
    let ghost kept = members_view(members@);
    let _ = remove_key(members, &key);
    proof {
        assert(kept =~= flatten_members(orig, tab, depth as nat));
    }
    if depth > 0 {
        if let Some(d) = definition {
            let mut extra = clone_members(d);
            flatten_refs(&mut extra, table, depth - 1);
            merge_absent(members, extra);
        }
    }
}

/// Flattens the references below a member's value, in place.
pub fn flatten_value_in_place(value: &mut Json, table: &Vec<(String, Json)>, depth: usize)
    ensures
        final(value)@ == flatten_value(old(value)@, members_view(table@), depth as nat),
    decreases depth, *old(value), 0nat,
{
    match value {
        Json::Object(members) => {
            proof {
                lemma_view_object(*members);
            }
            flatten_refs(members, table, depth);
            proof {
                lemma_view_object(*members);
            }
        },
        Json::Array(items) => {
            proof {
                lemma_view_array(*items);
            }
            flatten_items(items, table, depth);
            proof {
                lemma_view_array(*items);
            }
        },
        _ => {},
    }
}

/// Flattens the references in each object of a list, in place.
pub fn flatten_items(items: &mut Vec<Json>, table: &Vec<(String, Json)>, depth: usize)
    ensures
        JsonView::Array(items_view(final(items)@)) == flatten_value(
            JsonView::Array(items_view(old(items)@)),
            members_view(table@),
            depth as nat,
        ),
    decreases depth, *old(items), 0nat,
{
    let ghost orig = items_view(items@);
    let ghost tab = members_view(table@);
    let mut i: usize = 0;
    while i < items.len()
        invariant
            i <= items.len(),
            items.len() == old(items).len(),
            orig == items_view(old(items)@),
            tab == members_view(table@),
            forall|k: int| i <= k < items.len() ==> items[k] == old(items)[k],
            forall|k: int|
                0 <= k < i ==> items[k]@ == (match orig[k] {
                    JsonView::Object(m) => JsonView::Object(flatten_object(m, tab, depth as nat)),
                    other => other,
                }),
        decreases items.len() - i,
    {
        proof {
            vstd::std_specs::vec::axiom_vec_index_decreases(*old(items), i as int);
        }
        match &mut items[i] {
            Json::Object(members) => {
                proof {
                    lemma_view_object(*members);
                }
                flatten_refs(members, table, depth);
                proof {
                    lemma_view_object(*members);
                }
            },
            _ => {},
        }
        i += 1;
    }
    proof {
        assert(items_view(items@) =~= flatten_value(
            JsonView::Array(orig),
            tab,
            depth as nat,
        )->Array_0);
    }
}

} // verus!
