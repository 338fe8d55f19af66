//! What holds of every normalized schema.

use crate::clean::{
    annotate, clean_members, clean_object, clean_value, constraint_fields, description_key,
    lemma_annotate_shape, lemma_clean_members_position, lemma_retype_shape,
    lemma_without_all_members, lower_type, notes, removed_keys, retype, type_key, without_all,
};
use crate::flatten::{
    definitions_key, defs_key, flatten_members, lemma_flatten_members_position,
    lemma_flatten_object_ref_free, ref_free, ref_key, table_of, target,
};
use crate::json::{
    get, has_key, lemma_has_key, lemma_position, lemma_without_absent, lemma_without_has_key,
    lemma_without_noop, lemma_without_other, position, without, JsonView, Members,
};
use crate::schema::{flatten_root, normalized};
use crate::text::lowercased;
use vstd::prelude::*;

verus! {

/// Whether `v` is a string, a number, a boolean or null.
pub open spec fn is_scalar(v: JsonView) -> bool {
    !(v is Array) && !(v is Object)
}

/// Normalizing leaves a scalar as it is.
pub proof fn lemma_scalar_unchanged(v: JsonView)
    requires
        is_scalar(v),
    ensures
        normalized(v) == v,
{
}

/// Whether no object in `v` has a removed keyword, at any depth.
pub open spec fn keyword_free(v: JsonView) -> bool
    decreases v,
{
    match v {
        JsonView::Object(m) => {
            &&& forall|k: int|
                0 <= k < removed_keys().len() ==> !has_key(m, #[trigger] removed_keys()[k])
            &&& forall|i: int| 0 <= i < m.len() ==> keyword_free(#[trigger] m[i].1)
        },
        JsonView::Array(items) => forall|i: int|
            0 <= i < items.len() ==> keyword_free(#[trigger] items[i]),
        _ => true,
    }
}

/// Whether the `type` of every object in `v`, at any depth, is what
/// normalizing it gives: every type name is its own lowercase form.
pub open spec fn types_settled(v: JsonView) -> bool
    decreases v,
{
    match v {
        JsonView::Object(m) => {
            &&& retype(m) == m
            &&& forall|i: int| 0 <= i < m.len() ==> types_settled(#[trigger] m[i].1)
        },
        JsonView::Array(items) => forall|i: int|
            0 <= i < items.len() ==> types_settled(#[trigger] items[i]),
        _ => true,
    }
}

/// Removing keys leaves no member with one of them.
pub proof fn lemma_without_all_absent(m: Members, keys: Seq<Seq<char>>, k: int)
    requires
        0 <= k < keys.len(),
    ensures
        !has_key(without_all(m, keys), keys[k]),
    decreases keys.len(),
{
    let inner = without_all(m, keys.drop_last());
    if keys[k] == keys.last() {
        lemma_without_absent(inner, keys.last());
    } else {
        lemma_without_all_absent(m, keys.drop_last(), k);
        lemma_without_other(inner, keys.last(), keys[k]);
    }
}

/// Removing keys that no member has changes nothing.
pub proof fn lemma_without_all_noop(m: Members, keys: Seq<Seq<char>>)
    requires
        forall|k: int| 0 <= k < keys.len() ==> !has_key(m, #[trigger] keys[k]),
    ensures
        without_all(m, keys) == m,
    decreases keys.len(),
{
    if keys.len() > 0 {
        let rest = keys.drop_last();
        assert forall|k: int| 0 <= k < rest.len() implies !has_key(m, #[trigger] rest[k]) by {
            assert(rest[k] == keys[k]);
        }
        lemma_without_all_noop(m, rest);
        assert(keys.last() == keys[keys.len() - 1]);
        lemma_without_noop(m, keys.last());
    }
}

/// An object without the keywords has no notes.
pub proof fn lemma_notes_empty(m: Members, fields: Seq<(Seq<char>, Seq<char>)>)
    requires
        forall|k: int| 0 <= k < fields.len() ==> !has_key(m, (#[trigger] fields[k]).0),
    ensures
        notes(m, fields) == Seq::<Seq<char>>::empty(),
    decreases fields.len(),
{
    if fields.len() > 0 {
        let rest = fields.drop_last();
        assert forall|k: int| 0 <= k < rest.len() implies !has_key(m, (#[trigger] rest[k]).0) by {
            assert(rest[k] == fields[k]);
        }
        lemma_notes_empty(m, rest);
        assert(fields.last() == fields[fields.len() - 1]);
    }
}

/// Every validation keyword is a removed keyword, and `description` is none.
pub proof fn lemma_keywords()
    ensures
        constraint_fields().len() == 10,
        removed_keys().len() == 17,
        forall|k: int|
            0 <= k < constraint_fields().len() ==> (#[trigger] constraint_fields()[k]).0
                == removed_keys()[k],
        forall|k: int|
            0 <= k < removed_keys().len() ==> #[trigger] removed_keys()[k] != description_key(),
{
    reveal_strlit("description");
    reveal_strlit("minLength");
    reveal_strlit("maxLength");
    reveal_strlit("minimum");
    reveal_strlit("maximum");
    reveal_strlit("minItems");
    reveal_strlit("maxItems");
    reveal_strlit("exclusiveMinimum");
    reveal_strlit("exclusiveMaximum");
    reveal_strlit("multipleOf");
    reveal_strlit("pattern");
    reveal_strlit("$schema");
    reveal_strlit("additionalProperties");
    reveal_strlit("enumCaseInsensitive");
    reveal_strlit("enumNormalizeWhitespace");
    reveal_strlit("uniqueItems");
    reveal_strlit("format");
    reveal_strlit("default");
    let d = description_key();
    assert forall|k: int| 0 <= k < removed_keys().len() implies #[trigger] removed_keys()[k]
        != d by {
        let r = removed_keys()[k];
        if r.len() == d.len() {
            assert(k == 14);
            assert(r[0] != d[0]);
        }
    }
}

/// Cleaning changes nothing in a value that has no removed keyword and
/// whose types are settled.
pub proof fn lemma_clean_fixed_point(v: JsonView)
    requires
        keyword_free(v),
        types_settled(v),
    ensures
        clean_value(v) == v,
    decreases v,
{
    match v {
        JsonView::Object(m) => {
            assert forall|i: int| 0 <= i < m.len() implies clean_members(m)[i] == m[i] by {
                assert(keyword_free(m[i].1));
                assert(types_settled(m[i].1));
                lemma_clean_fixed_point(m[i].1);
            }
            assert(clean_members(m) =~= m);
            lemma_without_all_noop(m, removed_keys());
            lemma_keywords();
            assert forall|k: int| 0 <= k < constraint_fields().len() implies !has_key(
                m,
                (#[trigger] constraint_fields()[k]).0,
            ) by {
                assert(!has_key(m, removed_keys()[k]));
            }
            lemma_notes_empty(m, constraint_fields());
            assert(without_all(clean_members(m), removed_keys()) == m);
            assert(annotate(m, notes(m, constraint_fields())) == m);
            assert(retype(m) == m);
            assert(clean_object(m) == m);
        },
        JsonView::Array(items) => {
            assert forall|i: int| 0 <= i < items.len() implies clean_value(items[i])
                == items[i] by {
                assert(keyword_free(items[i]));
                assert(types_settled(items[i]));
                lemma_clean_fixed_point(items[i]);
            }
            assert(clean_value(v)->Array_0 =~= items);
        },
        _ => {},
    }
}

/// Normalizing a type keeps it free of removed keywords.
pub proof fn lemma_lower_type_keyword_free(v: JsonView)
    requires
        keyword_free(v),
    ensures
        keyword_free(lower_type(v)),
{
    match v {
        JsonView::Array(items) => {
            assert forall|i: int| 0 <= i < items.len() implies keyword_free(
                #[trigger] lower_type(v)->Array_0[i],
            ) by {
                assert(keyword_free(items[i]));
            }
        },
        _ => {},
    }
}

/// No object of a cleaned value has a removed keyword, at any depth.
pub proof fn lemma_clean_keyword_free(v: JsonView)
    ensures
        keyword_free(clean_value(v)),
    decreases v,
{
    match v {
        JsonView::Object(m) => {
            let cm = clean_members(m);
            let w = without_all(cm, removed_keys());
            let a = annotate(w, notes(m, constraint_fields()));
            let c = retype(a);
            assert(clean_object(m) == c);
            assert(clean_value(v) == JsonView::Object(c));
            lemma_keywords();
            lemma_without_all_members(cm, removed_keys());
            lemma_annotate_shape(w, notes(m, constraint_fields()));
            lemma_retype_shape(a);
            assert forall|k: int| 0 <= k < removed_keys().len() implies !has_key(
                c,
                #[trigger] removed_keys()[k],
            ) by {
                lemma_without_all_absent(cm, removed_keys(), k);
                assert(has_key(a, removed_keys()[k]) == has_key(w, removed_keys()[k]));
                assert(position(c, removed_keys()[k]) == position(a, removed_keys()[k]));
            }
            assert forall|i: int| 0 <= i < c.len() implies keyword_free(#[trigger] c[i].1) by {
                if i < w.len() {
                    let j = cm.index_of(w[i]);
                    assert(cm[j].1 == clean_value(m[j].1));
                    lemma_clean_keyword_free(m[j].1);
                    assert(keyword_free(w[i].1));
                }
                assert(keyword_free(a[i].1));
                lemma_lower_type_keyword_free(a[i].1);
            }
        },
        JsonView::Array(items) => {
            assert forall|i: int| 0 <= i < items.len() implies keyword_free(
                #[trigger] clean_value(v)->Array_0[i],
            ) by {
                lemma_clean_keyword_free(items[i]);
            }
        },
        _ => {},
    }
}

/// No object of a normalized schema has a removed keyword, at any depth.
pub proof fn lemma_normalized_keyword_free(v: JsonView)
    ensures
        keyword_free(normalized(v)),
{
    lemma_clean_keyword_free(flatten_root(v));
}

/// Whether lowercasing a lowercased string changes nothing, for every
/// string.
pub open spec fn lowercase_is_idempotent() -> bool {
    forall|s: Seq<char>| #[trigger] lowercased(lowercased(s)) == lowercased(s)
}

/// Normalizing a type twice gives what normalizing it once gives, where
/// lowercasing is idempotent.
pub proof fn lemma_lower_type_idempotent(v: JsonView)
    requires
        lowercase_is_idempotent(),
    ensures
        lower_type(lower_type(v)) == lower_type(v),
{
    match v {
        JsonView::Array(items) => {
            assert(lower_type(lower_type(v))->Array_0 =~= lower_type(v)->Array_0);
        },
        _ => {},
    }
}

/// Normalizing a type keeps the types below it settled.
pub proof fn lemma_lower_type_settled(v: JsonView)
    requires
        types_settled(v),
    ensures
        types_settled(lower_type(v)),
{
    match v {
        JsonView::Array(items) => {
            assert forall|i: int| 0 <= i < items.len() implies types_settled(
                #[trigger] lower_type(v)->Array_0[i],
            ) by {
                assert(types_settled(items[i]));
            }
        },
        _ => {},
    }
}

/// The types of a cleaned value are settled, where lowercasing is
/// idempotent.
pub proof fn lemma_clean_types_settled(v: JsonView)
    requires
        lowercase_is_idempotent(),
    ensures
        types_settled(clean_value(v)),
    decreases v,
{
    match v {
        JsonView::Object(m) => {
            let cm = clean_members(m);
            let w = without_all(cm, removed_keys());
            let a = annotate(w, notes(m, constraint_fields()));
            let c = retype(a);
            assert(clean_object(m) == c);
            assert(clean_value(v) == JsonView::Object(c));
            lemma_without_all_members(cm, removed_keys());
            lemma_annotate_shape(w, notes(m, constraint_fields()));
            lemma_retype_shape(a);
            lemma_position(a, type_key());
            if has_key(a, type_key()) {
                lemma_lower_type_idempotent(a[position(a, type_key())].1);
            }
            assert(retype(c) =~= c);
            assert forall|i: int| 0 <= i < c.len() implies types_settled(#[trigger] c[i].1) by {
                if i < w.len() {
                    let j = cm.index_of(w[i]);
                    assert(cm[j].1 == clean_value(m[j].1));
                    lemma_clean_types_settled(m[j].1);
                    assert(types_settled(w[i].1));
                }
                assert(types_settled(a[i].1));
                lemma_lower_type_settled(a[i].1);
            }
        },
        JsonView::Array(items) => {
            assert forall|i: int| 0 <= i < items.len() implies types_settled(
                #[trigger] clean_value(v)->Array_0[i],
            ) by {
                lemma_clean_types_settled(items[i]);
            }
        },
        _ => {},
    }
}

/// Cleaning twice gives what cleaning once gives, where the type names of
/// the cleaned value are their own lowercase forms.
pub proof fn lemma_clean_idempotent(v: JsonView)
    requires
        types_settled(clean_value(v)),
    ensures
        clean_value(clean_value(v)) == clean_value(v),
{
    lemma_clean_keyword_free(v);
    lemma_clean_fixed_point(clean_value(v));
}

/// Whether `v` is an object with a `$defs` or a `definitions` member.
pub open spec fn declares_definitions(v: JsonView) -> bool {
    match v {
        JsonView::Object(m) => has_key(m, defs_key()) || has_key(m, definitions_key()),
        _ => false,
    }
}

/// A key that is there after removals was there before them.
pub proof fn lemma_without_all_has_key(m: Members, keys: Seq<Seq<char>>, other: Seq<char>)
    ensures
        has_key(without_all(m, keys), other) ==> has_key(m, other),
    decreases keys.len(),
{
    if keys.len() > 0 {
        lemma_without_all_has_key(m, keys.drop_last(), other);
        lemma_without_has_key(without_all(m, keys.drop_last()), keys.last(), other);
    }
}

/// A cleaned object has no key that the object did not have, but for
/// `description`.
pub proof fn lemma_clean_object_keys(m: Members, key: Seq<char>)
    requires
        key != description_key(),
    ensures
        has_key(clean_object(m), key) ==> has_key(m, key),
{
    let cm = clean_members(m);
    let w = without_all(cm, removed_keys());
    let a = annotate(w, notes(m, constraint_fields()));
    assert(clean_object(m) == retype(a));
    lemma_clean_members_position(m, key);
    lemma_without_all_has_key(cm, removed_keys(), key);
    lemma_annotate_shape(w, notes(m, constraint_fields()));
    lemma_retype_shape(a);
    assert(has_key(a, key) == has_key(w, key));
    assert(position(retype(a), key) == position(a, key));
}

/// The root of a normalized schema has no `$defs` and no `definitions`,
/// where the root declared no definition or its own `$ref` resolved to
/// none.
pub proof fn lemma_definitions_leave_root(v: JsonView)
    requires
        v is Object ==> table_of(v->Object_0).len() == 0 || target(
            v->Object_0,
            table_of(v->Object_0),
        ) is None,
    ensures
        !declares_definitions(normalized(v)),
{
    match v {
        JsonView::Object(m) => {
            reveal_strlit("$ref");
            reveal_strlit("$defs");
            reveal_strlit("definitions");
            reveal_strlit("description");
            let r = ref_key();
            let one = defs_key();
            let two = definitions_key();
            assert(r.len() != one.len() && r.len() != two.len() && one.len() != two.len());
            assert(one.len() != description_key().len());
            assert(two != description_key()) by {
                assert(two[2] != description_key()[2]);
            }
            let table = table_of(m);
            let first = without(m, one);
            let rest = without(first, two);
            lemma_without_absent(m, one);
            lemma_without_other(first, two, one);
            lemma_without_absent(first, two);
            lemma_without_other(m, one, r);
            lemma_without_other(first, two, r);
            assert(get(rest, r) == get(m, r));
            let flat = flatten_root(v)->Object_0;
            if table.len() > 0 {
                let kept = flatten_members(rest, table, table.len());
                lemma_flatten_members_position(rest, table, table.len(), one);
                lemma_flatten_members_position(rest, table, table.len(), two);
                lemma_without_has_key(kept, r, one);
                lemma_without_has_key(kept, r, two);
                assert(target(rest, table) is None);
                assert(flat == without(kept, r));
            }
            assert(!has_key(flat, one) && !has_key(flat, two));
            lemma_clean_object_keys(flat, one);
            lemma_clean_object_keys(flat, two);
            assert(normalized(v) == JsonView::Object(clean_object(flat)));
        },
        _ => {},
    }
}

/// Normalizing twice gives what normalizing once gives, where the result of
/// the first pass has no `$defs` and no `definitions` at its root and its
/// type names are their own lowercase forms.
pub proof fn lemma_normalized_idempotent(v: JsonView)
    requires
        !declares_definitions(normalized(v)),
        types_settled(normalized(v)),
    ensures
        normalized(normalized(v)) == normalized(v),
{
    let once = normalized(v);
    match once {
        JsonView::Object(m) => {
            lemma_without_noop(m, defs_key());
            lemma_without_noop(m, definitions_key());
            assert(table_of(m) =~= Seq::empty());
        },
        _ => {},
    }
    assert(flatten_root(once) == once);
    lemma_clean_idempotent(flatten_root(v));
}

/// Cleaning keeps the kind of a value.
pub proof fn lemma_clean_keeps_kind(v: JsonView)
    ensures
        clean_value(v) is Object <==> v is Object,
        clean_value(v) is Array <==> v is Array,
        is_scalar(v) ==> clean_value(v) == v,
{
}

/// Normalizing a type brings no `$ref` into it.
pub proof fn lemma_lower_type_ref_free(v: JsonView)
    requires
        ref_free(v),
    ensures
        ref_free(lower_type(v)),
{
    match v {
        JsonView::Array(items) => {
            let out = lower_type(v)->Array_0;
            assert forall|i: int| 0 <= i < out.len() && out[i] is Object implies ref_free(
                #[trigger] out[i],
            ) by {
                assert(out[i] == items[i]);
            }
        },
        _ => {},
    }
}

/// Cleaning brings no `$ref` into a value that has none.
pub proof fn lemma_clean_ref_free(v: JsonView)
    requires
        ref_free(v),
    ensures
        ref_free(clean_value(v)),
    decreases v,
{
    match v {
        JsonView::Object(m) => {
            let cm = clean_members(m);
            let w = without_all(cm, removed_keys());
            let a = annotate(w, notes(m, constraint_fields()));
            let c = retype(a);
            assert(clean_object(m) == c);
            assert(clean_value(v) == JsonView::Object(c));
            lemma_without_all_members(cm, removed_keys());
            lemma_annotate_shape(w, notes(m, constraint_fields()));
            lemma_retype_shape(a);
            assert(!has_key(c, ref_key())) by {
                reveal_strlit("$ref");
                reveal_strlit("description");
                assert(ref_key().len() != description_key().len());
                lemma_clean_members_position(m, ref_key());
                lemma_has_key(cm, ref_key());
                lemma_has_key(w, ref_key());
                if has_key(w, ref_key()) {
                    let i = choose|i: int| 0 <= i < w.len() && (#[trigger] w[i]).0 == ref_key();
                    let j = cm.index_of(w[i]);
                    assert(cm[j].0 == ref_key());
                }
                assert(has_key(a, ref_key()) == has_key(w, ref_key()));
                assert(position(c, ref_key()) == position(a, ref_key()));
            }
            assert forall|i: int| 0 <= i < c.len() implies ref_free(#[trigger] c[i].1) by {
                if i < w.len() {
                    let j = cm.index_of(w[i]);
                    assert(cm[j].1 == clean_value(m[j].1));
                    assert(ref_free(m[j].1));
                    lemma_clean_ref_free(m[j].1);
                    assert(ref_free(w[i].1));
                }
                assert(ref_free(a[i].1));
                lemma_lower_type_ref_free(a[i].1);
            }
        },
        JsonView::Array(items) => {
            let out = clean_value(v)->Array_0;
            assert forall|i: int| 0 <= i < out.len() && out[i] is Object implies ref_free(
                #[trigger] out[i],
            ) by {
                lemma_clean_keeps_kind(items[i]);
                lemma_clean_ref_free(items[i]);
            }
        },
        _ => {},
    }
}

/// Where the root declares at least one definition, no object that
/// flattening reaches in the normalized schema has a `$ref`.
pub proof fn lemma_normalized_ref_free(v: JsonView)
    requires
        v is Object,
        table_of(v->Object_0).len() > 0,
    ensures
        ref_free(normalized(v)),
{
    let m = v->Object_0;
    let table = table_of(m);
    let rest = without(without(m, defs_key()), definitions_key());
    lemma_flatten_object_ref_free(rest, table, table.len());
    lemma_clean_ref_free(flatten_root(v));
}

/// Normalizing twice gives what normalizing once gives, where lowercasing
/// is idempotent and the root declared no definition or its own `$ref`
/// resolved to none.
pub proof fn lemma_normalized_idempotent_at_plain_root(v: JsonView)
    requires
        lowercase_is_idempotent(),
        v is Object ==> table_of(v->Object_0).len() == 0 || target(
            v->Object_0,
            table_of(v->Object_0),
        ) is None,
    ensures
        normalized(normalized(v)) == normalized(v),
{
    lemma_definitions_leave_root(v);
    lemma_clean_types_settled(flatten_root(v));
    lemma_normalized_idempotent(v);
}

} // verus!
