//! Unique keys: a schema whose objects list no key twice is normalized to
//! one whose objects list no key twice.

use crate::clean::{
    annotate, clean_members, clean_object, clean_value, constraint_fields, lemma_annotate_shape,
    lemma_retype_shape, lemma_without_all_members, lower_type, notes, removed_keys, retype,
    without_all,
};
use crate::flatten::{
    definitions_key, defs_key, flatten_members, flatten_object, flatten_value,
    lemma_merge_members, members_of, merge, ref_key, table_of, target,
};
use crate::json::{
    get, has_key, lemma_has_key, lemma_position, lemma_without_has_key, lemma_without_members,
    position, without, JsonView, Members,
};
use crate::schema::{flatten_root, normalized};
use crate::text::last_segment;
use vstd::prelude::*;

verus! {

/// Whether no two members of `m` have the same key.
pub open spec fn distinct_keys(m: Members) -> bool {
    forall|i: int, j: int| 0 <= i < j < m.len() ==> (#[trigger] m[i]).0 != (#[trigger] m[j]).0
}

/// Whether no object in `v` lists a key twice, at any depth.
pub open spec fn unique_keys(v: JsonView) -> bool
    decreases v,
{
    match v {
        JsonView::Object(m) => {
            &&& distinct_keys(m)
            &&& forall|i: int| 0 <= i < m.len() ==> unique_keys(#[trigger] m[i].1)
        },
        JsonView::Array(items) => forall|i: int|
            0 <= i < items.len() ==> unique_keys(#[trigger] items[i]),
        _ => true,
    }
}

/// Whether every value of `m` has unique keys.
pub open spec fn unique_values(m: Members) -> bool {
    forall|i: int| 0 <= i < m.len() ==> unique_keys(#[trigger] m[i].1)
}

/// A member may follow distinct ones exactly where its key is new.
pub proof fn lemma_distinct_push(m: Members, e: (Seq<char>, JsonView))
    ensures
        distinct_keys(m.push(e)) <==> distinct_keys(m) && !has_key(m, e.0),
{
    let n = m.push(e);
    lemma_has_key(m, e.0);
    if distinct_keys(n) {
        assert forall|i: int, j: int| 0 <= i < j < m.len() implies (#[trigger] m[i]).0 != (
        #[trigger] m[j]).0 by {
            assert(n[i] == m[i] && n[j] == m[j]);
        }
        if has_key(m, e.0) {
            let i = choose|i: int| 0 <= i < m.len() && (#[trigger] m[i]).0 == e.0;
            assert(n[i] == m[i] && n[m.len() as int] == e);
        }
    }
    if distinct_keys(m) && !has_key(m, e.0) {
        assert forall|i: int, j: int| 0 <= i < j < n.len() implies (#[trigger] n[i]).0 != (
        #[trigger] n[j]).0 by {
            assert(n[i] == m[i]);
            if j < m.len() {
                assert(n[j] == m[j]);
            }
        }
    }
}

/// Removing a key keeps the keys distinct.
pub proof fn lemma_without_distinct(m: Members, key: Seq<char>)
    requires
        distinct_keys(m),
    ensures
        distinct_keys(without(m, key)),
    decreases m.len(),
{
    if m.len() > 0 {
        let rest = m.drop_last();
        assert(rest.push(m.last()) =~= m);
        lemma_distinct_push(rest, m.last());
        lemma_without_distinct(rest, key);
        lemma_without_has_key(rest, key, m.last().0);
        lemma_distinct_push(without(rest, key), m.last());
    }
}

/// Removing keys keeps the keys distinct.
pub proof fn lemma_without_all_distinct(m: Members, keys: Seq<Seq<char>>)
    requires
        distinct_keys(m),
    ensures
        distinct_keys(without_all(m, keys)),
    decreases keys.len(),
{
    if keys.len() > 0 {
        lemma_without_all_distinct(m, keys.drop_last());
        lemma_without_distinct(without_all(m, keys.drop_last()), keys.last());
    }
}

/// Merging keeps the keys distinct.
pub proof fn lemma_merge_distinct(m: Members, extra: Members)
    requires
        distinct_keys(m),
    ensures
        distinct_keys(merge(m, extra)),
    decreases extra.len(),
{
    if extra.len() > 0 {
        lemma_merge_distinct(m, extra.drop_last());
        lemma_distinct_push(merge(m, extra.drop_last()), extra.last());
    }
}

/// Members with the same keys in the same places are distinct together.
pub proof fn lemma_same_keys_distinct(m: Members, n: Members)
    requires
        distinct_keys(m),
        n.len() == m.len(),
        forall|i: int| 0 <= i < m.len() ==> (#[trigger] n[i]).0 == m[i].0,
    ensures
        distinct_keys(n),
{
    assert forall|i: int, j: int| 0 <= i < j < n.len() implies (#[trigger] n[i]).0 != (
    #[trigger] n[j]).0 by {
        assert(m[i].0 != m[j].0);
    }
}

/// Adding the notes keeps the keys distinct.
pub proof fn lemma_annotate_distinct(m: Members, ns: Seq<Seq<char>>)
    requires
        distinct_keys(m),
    ensures
        distinct_keys(annotate(m, ns)),
{
    let a = annotate(m, ns);
    lemma_annotate_shape(m, ns);
    if a.len() > m.len() {
        let e = a[m.len() as int];
        assert(a =~= m.push(e));
        lemma_distinct_push(m, e);
    } else {
        lemma_same_keys_distinct(m, a);
    }
}

/// Flattening keeps the keys unique, where the definitions have unique
/// keys too.
pub proof fn lemma_flatten_object_unique(m: Members, table: Members, depth: nat)
    requires
        unique_keys(JsonView::Object(m)),
        unique_values(table),
    ensures
        unique_keys(JsonView::Object(flatten_object(m, table, depth))),
    decreases depth, m, 1nat,
{
    let kept = flatten_members(m, table, depth);
    let base = without(kept, ref_key());
    lemma_same_keys_distinct(m, kept);
    lemma_without_distinct(kept, ref_key());
    lemma_without_members(kept, ref_key());
    assert forall|i: int| 0 <= i < base.len() implies unique_keys(#[trigger] base[i].1) by {
        let j = kept.index_of(base[i]);
        assert(unique_keys(m[j].1));
        lemma_flatten_value_unique(m[j].1, table, depth);
    }
    match target(m, table) {
        Some(d) => {
            if depth > 0 {
                let name = last_segment(get(m, ref_key())->0->String_0);
                lemma_position(table, name);
                let t = position(table, name);
                assert(unique_keys(table[t].1));
                let extra = flatten_object(d, table, (depth - 1) as nat);
                lemma_flatten_object_unique(d, table, (depth - 1) as nat);
                lemma_merge_members(base, extra);
                lemma_merge_distinct(base, extra);
                let all = merge(base, extra);
                assert forall|i: int| 0 <= i < all.len() implies unique_keys(
                    #[trigger] all[i].1,
                ) by {
                    if base.contains(all[i]) {
                        let j = base.index_of(all[i]);
                        assert(unique_keys(base[j].1));
                    } else {
                        let j = extra.index_of(all[i]);
                        assert(unique_keys(extra[j].1));
                    }
                }
            }
        },
        None => {},
    }
}

/// Flattening a value keeps the keys unique, where the definitions have
/// unique keys too.
pub proof fn lemma_flatten_value_unique(v: JsonView, table: Members, depth: nat)
    requires
        unique_keys(v),
        unique_values(table),
    ensures
        unique_keys(flatten_value(v, table, depth)),
    decreases depth, v, 0nat,
{
    match v {
        JsonView::Object(m) => {
            lemma_flatten_object_unique(m, table, depth);
        },
        JsonView::Array(items) => {
            let out = flatten_value(v, table, depth)->Array_0;
            assert forall|i: int| 0 <= i < out.len() implies unique_keys(#[trigger] out[i]) by {
                assert(unique_keys(items[i]));
                match items[i] {
                    JsonView::Object(m) => {
                        lemma_flatten_object_unique(m, table, depth);
                    },
                    _ => {},
                }
            }
        },
        _ => {},
    }
}

/// Normalizing a type keeps the keys unique.
pub proof fn lemma_lower_type_unique(v: JsonView)
    requires
        unique_keys(v),
    ensures
        unique_keys(lower_type(v)),
{
    match v {
        JsonView::Array(items) => {
            let out = lower_type(v)->Array_0;
            assert forall|i: int| 0 <= i < out.len() implies unique_keys(#[trigger] out[i]) by {
                assert(unique_keys(items[i]));
            }
        },
        _ => {},
    }
}

/// Cleaning keeps the keys unique.
pub proof fn lemma_clean_unique(v: JsonView)
    requires
        unique_keys(v),
    ensures
        unique_keys(clean_value(v)),
    decreases v,
{
    match v {
        JsonView::Object(m) => {
            let cm = clean_members(m);
            let w = without_all(cm, removed_keys());
            let a = annotate(w, notes(m, constraint_fields()));
            let c = retype(a);
            assert(clean_object(m) == c);
            assert(clean_value(v) == JsonView::Object(c));
            lemma_same_keys_distinct(m, cm);
            lemma_without_all_distinct(cm, removed_keys());
            lemma_without_all_members(cm, removed_keys());
            lemma_annotate_distinct(w, notes(m, constraint_fields()));
            lemma_annotate_shape(w, notes(m, constraint_fields()));
            lemma_retype_shape(a);
            lemma_same_keys_distinct(a, c);
            assert forall|i: int| 0 <= i < c.len() implies unique_keys(#[trigger] c[i].1) by {
                if i < w.len() {
                    let j = cm.index_of(w[i]);
                    assert(cm[j].1 == clean_value(m[j].1));
                    assert(unique_keys(m[j].1));
                    lemma_clean_unique(m[j].1);
                    assert(unique_keys(w[i].1));
                }
                assert(unique_keys(a[i].1));
                lemma_lower_type_unique(a[i].1);
            }
        },
        JsonView::Array(items) => {
            let out = clean_value(v)->Array_0;
            assert forall|i: int| 0 <= i < out.len() implies unique_keys(#[trigger] out[i]) by {
                assert(unique_keys(items[i]));
                lemma_clean_unique(items[i]);
            }
        },
        _ => {},
    }
}

/// The values of the definitions that a root with unique keys declares have
/// unique keys.
pub proof fn lemma_table_unique(m: Members)
    requires
        unique_keys(JsonView::Object(m)),
    ensures
        unique_values(table_of(m)),
{
    lemma_position(m, definitions_key());
    lemma_position(m, defs_key());
    let first = members_of(get(m, definitions_key()));
    let second = members_of(get(m, defs_key()));
    if has_key(m, definitions_key()) {
        assert(unique_keys(m[position(m, definitions_key())].1));
    }
    if has_key(m, defs_key()) {
        assert(unique_keys(m[position(m, defs_key())].1));
    }
    assert forall|i: int| 0 <= i < table_of(m).len() implies unique_keys(
        #[trigger] table_of(m)[i].1,
    ) by {
        if i < first.len() {
            assert(table_of(m)[i] == first[i]);
            assert(unique_keys(first[i].1));
        } else {
            assert(table_of(m)[i] == second[i - first.len()]);
            assert(unique_keys(second[i - first.len()].1));
        }
    }
}

/// Normalizing a schema whose objects list no key twice gives one whose
/// objects list no key twice.
pub proof fn lemma_normalized_unique(v: JsonView)
    requires
        unique_keys(v),
    ensures
        unique_keys(normalized(v)),
{
    match v {
        JsonView::Object(m) => {
            let one = without(m, defs_key());
            let rest = without(one, definitions_key());
            lemma_without_distinct(m, defs_key());
            lemma_without_distinct(one, definitions_key());
            lemma_without_members(m, defs_key());
            lemma_without_members(one, definitions_key());
            assert forall|i: int| 0 <= i < rest.len() implies unique_keys(#[trigger] rest[i].1) by {
                let j = one.index_of(rest[i]);
                let k = m.index_of(one[j]);
                assert(unique_keys(m[k].1));
            }
            lemma_table_unique(m);
            lemma_flatten_object_unique(rest, table_of(m), table_of(m).len());
        },
        _ => {},
    }
    lemma_clean_unique(flatten_root(v));
}

} // verus!
