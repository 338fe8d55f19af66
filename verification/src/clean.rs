//! Schema cleaning: validation keywords become a note in the description,
//! unsupported keywords are dropped, and type names are lowercased.

use crate::json::{
    find_key, get, has_key, items_view, lemma_position, lemma_position_is, lemma_position_push,
    lemma_update_position, lemma_view_array, lemma_view_object, lemma_without_members, members_view,
    position, remove_key, without, Json, JsonView, Members,
};
use crate::text::{json_text, lowercase, lowercased, render};
use vstd::prelude::*;
use vstd::string::*;

verus! {

/// The validation keywords that become notes, each with the label of its
/// note, in the order of the notes.
pub open spec fn constraint_fields() -> Seq<(Seq<char>, Seq<char>)> {
    seq![
        ("minLength"@, "minLen"@),
        ("maxLength"@, "maxLen"@),
        ("minimum"@, "min"@),
        ("maximum"@, "max"@),
        ("minItems"@, "minItems"@),
        ("maxItems"@, "maxItems"@),
        ("exclusiveMinimum"@, "exclMin"@),
        ("exclusiveMaximum"@, "exclMax"@),
        ("multipleOf"@, "multipleOf"@),
        ("pattern"@, "pattern"@),
    ]
}

/// The keywords that a cleaned object never has: the validation keywords,
/// then those that are dropped without a note.
pub open spec fn removed_keys() -> Seq<Seq<char>> {
    seq![
        "minLength"@,
        "maxLength"@,
        "minimum"@,
        "maximum"@,
        "minItems"@,
        "maxItems"@,
        "exclusiveMinimum"@,
        "exclusiveMaximum"@,
        "multipleOf"@,
        "pattern"@,
        "$schema"@,
        "additionalProperties"@,
        "enumCaseInsensitive"@,
        "enumNormalizeWhitespace"@,
        "uniqueItems"@,
        "format"@,
        "default"@,
    ]
}

/// The key of the description.
pub open spec fn description_key() -> Seq<char> {
    "description"@
}

/// The key of the type.
pub open spec fn type_key() -> Seq<char> {
    "type"@
}

/// The notes of an object: for each field whose keyword `m` has, in the
/// order of `fields`, the label, `": "` and the JSON text of the value.
pub open spec fn notes(m: Members, fields: Seq<(Seq<char>, Seq<char>)>) -> Seq<Seq<char>>
    decreases fields.len(),
{
    if fields.len() == 0 {
        Seq::empty()
    } else {
        let before = notes(m, fields.drop_last());
        match get(m, fields.last().0) {
            Some(v) => before.push(fields.last().1 + ": "@ + json_text(v)),
            None => before,
        }
    }
}

/// The parts, with `sep` between each two neighbours.
pub open spec fn join(parts: Seq<Seq<char>>, sep: Seq<char>) -> Seq<char>
    decreases parts.len(),
{
    if parts.len() == 0 {
        Seq::empty()
    } else if parts.len() == 1 {
        parts[0]
    } else {
        join(parts.drop_last(), sep) + sep + parts.last()
    }
}

/// What the notes add to a description.
pub open spec fn suffix(notes: Seq<Seq<char>>) -> Seq<char> {
    " [Validation: "@ + join(notes, ", "@) + "]"@
}

/// `m` without the members that have one of `keys`.
pub open spec fn without_all(m: Members, keys: Seq<Seq<char>>) -> Members
    decreases keys.len(),
{
    if keys.len() == 0 {
        m
    } else {
        without(without_all(m, keys.drop_last()), keys.last())
    }
}

/// `m` with the notes in its description. Without notes `m` is unchanged. A
/// description that is a string grows by the suffix; one that is no string
/// stays; where there is none, one is added that holds the suffix.
pub open spec fn annotate(m: Members, notes: Seq<Seq<char>>) -> Members {
    if notes.len() == 0 {
        m
    } else {
        match get(m, description_key()) {
            Some(JsonView::String(s)) => m.update(
                position(m, description_key()),
                (description_key(), JsonView::String(s + suffix(notes))),
            ),
            Some(_) => m,
            None => m.push((description_key(), JsonView::String(suffix(notes)))),
        }
    }
}

/// A string lowercased; any other value unchanged.
pub open spec fn lower_name(v: JsonView) -> JsonView {
    match v {
        JsonView::String(s) => JsonView::String(lowercased(s)),
        other => other,
    }
}

/// A `type` value normalized: a string lowercased, an array with each of
/// its strings lowercased, any other value unchanged.
pub open spec fn lower_type(v: JsonView) -> JsonView {
    match v {
        JsonView::String(s) => JsonView::String(lowercased(s)),
        JsonView::Array(items) => JsonView::Array(
            Seq::new(items.len(), |i: int| lower_name(items[i])),
        ),
        other => other,
    }
}

/// `m` with the value of its `type` normalized.
pub open spec fn retype(m: Members) -> Members {
    if has_key(m, type_key()) {
        let p = position(m, type_key());
        m.update(p, (m[p].0, lower_type(m[p].1)))
    } else {
        m
    }
}

/// A cleaned value: an object as `clean_object` says, an array element by
/// element, a scalar unchanged.
pub open spec fn clean_value(v: JsonView) -> JsonView
    decreases v, 0nat,
{
    match v {
        JsonView::Object(m) => JsonView::Object(clean_object(m)),
        JsonView::Array(items) => JsonView::Array(
            Seq::new(
                items.len(),
                |i: int|
                    if 0 <= i < items.len() {
                        clean_value(items[i])
                    } else {
                        JsonView::Null
                    },
            ),
        ),
        other => other,
    }
}

/// The members of an object, each with its value cleaned.
pub open spec fn clean_members(m: Members) -> Members
    decreases m, 0nat,
{
    Seq::new(
        m.len(),
        |i: int|
            (
                m[i].0,
                if 0 <= i < m.len() {
                    clean_value(m[i].1)
                } else {
                    JsonView::Null
                },
            ),
    )
}

/// The members of a cleaned object: those of `m` cleaned, without the
/// removed keywords, with the notes of `m` in the description and the type
/// normalized.
pub open spec fn clean_object(m: Members) -> Members
    decreases m, 1nat,
{
    retype(annotate(without_all(clean_members(m), removed_keys()), notes(m, constraint_fields())))
}

/// Every member of `without_all(m, keys)` is a member of `m`.
pub proof fn lemma_without_all_members(m: Members, keys: Seq<Seq<char>>)
    ensures
        without_all(m, keys).len() <= m.len(),
        forall|i: int|
            0 <= i < without_all(m, keys).len() ==> m.contains(#[trigger] without_all(m, keys)[i]),
    decreases keys.len(),
{
    if keys.len() > 0 {
        let inner = without_all(m, keys.drop_last());
        lemma_without_all_members(m, keys.drop_last());
        lemma_without_members(inner, keys.last());
        assert forall|i: int| 0 <= i < without_all(m, keys).len() implies m.contains(
            #[trigger] without_all(m, keys)[i],
        ) by {
            let k = inner.index_of(without(inner, keys.last())[i]);
            assert(m.contains(inner[k]));
        }
    }
}

/// Cleaning the values leaves every lookup by key where it was.
pub proof fn lemma_clean_members_position(m: Members, key: Seq<char>)
    ensures
        position(clean_members(m), key) == position(m, key),
        has_key(clean_members(m), key) == has_key(m, key),
{
    lemma_position(m, key);
    let cm = clean_members(m);
    assert forall|j: int| 0 <= j < position(m, key) implies (#[trigger] cm[j]).0 != key by {
        assert(cm[j].0 == m[j].0);
    }
    lemma_position_is(cm, key, position(m, key));
}

/// Cleaning the values commutes with removing a key.
pub proof fn lemma_clean_without(m: Members, key: Seq<char>)
    ensures
        clean_members(without(m, key)) == without(clean_members(m), key),
    decreases m.len(),
{
    if m.len() == 0 {
        assert(clean_members(m) =~= m);
    } else {
        let rest = m.drop_last();
        lemma_clean_without(rest, key);
        assert(clean_members(m).drop_last() =~= clean_members(rest));
        if m.last().0 == key {
        } else {
            assert(clean_members(without(rest, key).push(m.last())) =~= clean_members(
                without(rest, key),
            ).push(clean_members(m).last()));
        }
    }
}

/// Cleaning the values commutes with removing keys.
pub proof fn lemma_clean_without_all(m: Members, keys: Seq<Seq<char>>)
    ensures
        clean_members(without_all(m, keys)) == without_all(clean_members(m), keys),
    decreases keys.len(),
{
    if keys.len() > 0 {
        lemma_clean_without_all(m, keys.drop_last());
        lemma_clean_without(without_all(m, keys.drop_last()), keys.last());
    }
}

/// What `annotate` keeps: the members stay in place with their keys; a
/// value stays or becomes a string; at most a `description` is added; no
/// other key comes or goes.
pub proof fn lemma_annotate_shape(m: Members, notes: Seq<Seq<char>>)
    ensures
        m.len() <= annotate(m, notes).len() <= m.len() + 1,
        forall|i: int|
            0 <= i < m.len() ==> (#[trigger] annotate(m, notes)[i]).0 == m[i].0 && (annotate(
                m,
                notes,
            )[i].1 == m[i].1 || (annotate(m, notes)[i].1 is String && m[i].1 is String)),
        annotate(m, notes).len() > m.len() ==> annotate(m, notes)[m.len() as int].0
            == description_key() && annotate(m, notes)[m.len() as int].1 is String && !has_key(
            m,
            description_key(),
        ),
        forall|key: Seq<char>|
            key != description_key() ==> #[trigger] has_key(annotate(m, notes), key) == has_key(
                m,
                key,
            ),
        has_key(m, description_key()) ==> forall|key: Seq<char>| #[trigger]
            position(annotate(m, notes), key) == position(m, key),
{
    lemma_position(m, description_key());
    let p = position(m, description_key());
    assert forall|key: Seq<char>| key != description_key() implies #[trigger] has_key(
        annotate(m, notes),
        key,
    ) == has_key(m, key) by {
        if notes.len() > 0 {
            match get(m, description_key()) {
                Some(JsonView::String(s)) => {
                    lemma_update_position(m, p, JsonView::String(s + suffix(notes)), key);
                },
                Some(_) => {},
                None => {
                    lemma_position_push(
                        m,
                        (description_key(), JsonView::String(suffix(notes))),
                        key,
                    );
                },
            }
        }
    }
    if has_key(m, description_key()) {
        assert forall|key: Seq<char>| #[trigger]
            position(annotate(m, notes), key) == position(m, key) by {
            if notes.len() > 0 {
                match get(m, description_key()) {
                    Some(JsonView::String(s)) => {
                        lemma_update_position(m, p, JsonView::String(s + suffix(notes)), key);
                    },
                    _ => {},
                }
            }
        }
    }
}

/// What `retype` keeps: the members stay in place with their keys; only the
/// value of the first `type` is normalized.
pub proof fn lemma_retype_shape(m: Members)
    ensures
        retype(m).len() == m.len(),
        forall|i: int|
            0 <= i < m.len() ==> (#[trigger] retype(m)[i]).0 == m[i].0 && retype(m)[i].1 == (if i
                == position(m, type_key()) {
                lower_type(m[i].1)
            } else {
                m[i].1
            }),
        forall|key: Seq<char>| #[trigger] position(retype(m), key) == position(m, key),
{
    lemma_position(m, type_key());
    let p = position(m, type_key());
    assert forall|key: Seq<char>| #[trigger] position(retype(m), key) == position(m, key) by {
        if has_key(m, type_key()) {
            lemma_update_position(m, p, lower_type(m[p].1), key);
        }
    }
}

/// The model of a list of strings.
pub open spec fn strings_view(v: Seq<String>) -> Seq<Seq<char>> {
    Seq::new(v.len(), |i: int| v[i]@)
}

/// The validation keywords with their labels.
fn constraint_table() -> (r: Vec<(&'static str, &'static str)>)
    ensures
        r.len() == constraint_fields().len(),
        forall|i: int| 0 <= i < r.len() ==> (r[i].0@, r[i].1@) == #[trigger] constraint_fields()[i],
{
    vec![
        ("minLength", "minLen"),
        ("maxLength", "maxLen"),
        ("minimum", "min"),
        ("maximum", "max"),
        ("minItems", "minItems"),
        ("maxItems", "maxItems"),
        ("exclusiveMinimum", "exclMin"),
        ("exclusiveMaximum", "exclMax"),
        ("multipleOf", "multipleOf"),
        ("pattern", "pattern"),
    ]
}

/// The removed keywords.
fn removed_table() -> (r: Vec<&'static str>)
    ensures
        r.len() == removed_keys().len(),
        forall|i: int| 0 <= i < r.len() ==> r[i]@ == #[trigger] removed_keys()[i],
{
    vec![
        "minLength",
        "maxLength",
        "minimum",
        "maximum",
        "minItems",
        "maxItems",
        "exclusiveMinimum",
        "exclusiveMaximum",
        "multipleOf",
        "pattern",
        "$schema",
        "additionalProperties",
        "enumCaseInsensitive",
        "enumNormalizeWhitespace",
        "uniqueItems",
        "format",
        "default",
    ]
}

/// Renders the note of each validation keyword that `members` has.
pub fn collect_notes(members: &Vec<(String, Json)>) -> (r: Vec<String>)
    ensures
        strings_view(r@) == notes(members_view(members@), constraint_fields()),
{
    let table = constraint_table();
    let ghost fields = constraint_fields();
    let ghost m = members_view(members@);
    let mut out: Vec<String> = Vec::new();
    let mut k: usize = 0;
    proof {
        assert(strings_view(out@) =~= notes(m, fields.take(0)));
    }
    while k < table.len()
        invariant
            k <= table.len(),
            table.len() == fields.len(),
            fields == constraint_fields(),
            m == members_view(members@),
            forall|i: int|
                0 <= i < table.len() ==> (table[i].0@, table[i].1@) == #[trigger] fields[i],
            strings_view(out@) == notes(m, fields.take(k as int)),
        decreases table.len() - k,
    {
        let key = String::from_str(table[k].0);
        proof {
            assert(fields.take(k + 1).drop_last() =~= fields.take(k as int));
            assert(fields.take(k + 1).last() == fields[k as int]);
        }
        match find_key(members, &key) {
            Some(i) => {
                let text = render(&members[i].1);
                let note = String::from_str(table[k].1).concat(": ").concat(text.as_str());
                let ghost before = strings_view(out@);
                out.push(note);
                proof {
                    assert(strings_view(out@) =~= before.push(note@));
                }
            },
            None => {},
        }
        k += 1;
    }
    proof {
        assert(fields.take(k as int) =~= fields);
    }
    out
}

/// Removes every member whose key is one of the removed keywords.
pub fn strip_keys(members: &mut Vec<(String, Json)>)
    ensures
        members_view(final(members)@) == without_all(
            members_view(old(members)@),
            removed_keys(),
        ),
{
    let table = removed_table();
    let ghost keys = removed_keys();
    let ghost m = members_view(members@);
    let mut k: usize = 0;
    proof {
        assert(keys.take(0) =~= Seq::empty());
    }
    while k < table.len()
        invariant
            k <= table.len(),
            table.len() == keys.len(),
            keys == removed_keys(),
            forall|i: int| 0 <= i < table.len() ==> table[i]@ == #[trigger] keys[i],
            members_view(members@) == without_all(m, keys.take(k as int)),
        decreases table.len() - k,
    {
        let key = String::from_str(table[k]);
        proof {
            assert(keys.take(k + 1).drop_last() =~= keys.take(k as int));
            assert(keys.take(k + 1).last() == keys[k as int]);
        }
        let _ = remove_key(members, &key);
        k += 1;
    }
    proof {
        assert(keys.take(k as int) =~= keys);
    }
}

/// Joins the notes with `", "` between each two neighbours.
pub fn join_notes(parts: &Vec<String>) -> (r: String)
    ensures
        r@ == join(strings_view(parts@), ", "@),
{
    let ghost all = strings_view(parts@);
    let mut out = String::new();
    let mut i: usize = 0;
    proof {
        assert(all.take(0) =~= Seq::empty());
    }
    while i < parts.len()
        invariant
            i <= parts.len(),
            all == strings_view(parts@),
            out@ == join(all.take(i as int), ", "@),
        decreases parts.len() - i,
    {
        proof {
            assert(all.take(i + 1).drop_last() =~= all.take(i as int));
            assert(all.take(i + 1).last() == parts[i as int]@);
            if i == 0 {
                assert(all.take(1)[0] == parts[0]@);
                assert(Seq::<char>::empty() + parts[0]@ =~= parts[0]@);
            }
        }
        if i > 0 {
            out.append(", ");
        }
        out.append(parts[i].as_str());
        i += 1;
    }
    proof {
        assert(all.take(i as int) =~= all);
    }
    out
}

/// Folds the notes into the description of `members`.
pub fn annotate_in_place(members: &mut Vec<(String, Json)>, notes: &Vec<String>)
    ensures
        members_view(final(members)@) == annotate(
            members_view(old(members)@),
            strings_view(notes@),
        ),
{
    if notes.len() == 0 {
        return ;
    }
    let ghost before = members@;
    let ghost m = members_view(members@);
    let tail = String::from_str(" [Validation: ").concat(join_notes(notes).as_str()).concat("]");
    let key = String::from_str("description");
    match find_key(members, &key) {
        Some(i) => {
            match &mut members[i].1 {
                Json::String(s) => {
                    s.append(tail.as_str());
                },
                _ => {},
            }
            proof {
                lemma_position(m, key@);
                assert(members@[i as int].0 == before[i as int].0);
                assert forall|k: int| 0 <= k < members.len() && k != i implies members@[k]
                    == before[k] by {}
                assert(members_view(members@) =~= annotate(m, strings_view(notes@)));
            }
        },
        None => {
            let mut text = String::new();
            text.append(tail.as_str());
            members.push((key, Json::String(text)));
            proof {
                assert(Seq::<char>::empty() + tail@ =~= tail@);
                assert(members_view(members@) =~= annotate(m, strings_view(notes@)));
            }
        },
    }
}

/// Lowercases each string of a list, in place.
pub fn lower_names(items: &mut Vec<Json>)
    ensures
        JsonView::Array(items_view(final(items)@)) == lower_type(
            JsonView::Array(items_view(old(items)@)),
        ),
{
    let ghost orig = items_view(items@);
    let mut i: usize = 0;
    while i < items.len()
        invariant
            i <= items.len(),
            items.len() == orig.len(),
            forall|k: int| i <= k < items.len() ==> items[k]@ == orig[k],
            forall|k: int| 0 <= k < i ==> items[k]@ == lower_name(orig[k]),
        decreases items.len() - i,
    {
        match &mut items[i] {
            Json::String(s) => {
                let lower = lowercase(s.as_str());
                *s = lower;
            },
            _ => {},
        }
        i += 1;
    }
    proof {
        assert(items_view(items@) =~= lower_type(JsonView::Array(orig))->Array_0);
    }
}

/// Normalizes the value of the `type` member, in place.
pub fn retype_in_place(members: &mut Vec<(String, Json)>)
    ensures
        members_view(final(members)@) == retype(members_view(old(members)@)),
{
    let ghost before = members@;
    let ghost m = members_view(members@);
    let key = String::from_str("type");
    match find_key(members, &key) {
        Some(i) => {
            match &mut members[i].1 {
                Json::String(s) => {
                    let lower = lowercase(s.as_str());
                    *s = lower;
                },
                Json::Array(items) => {
                    proof {
                        lemma_view_array(*items);
                    }
                    lower_names(items);
                    proof {
                        lemma_view_array(*items);
                    }
                },
                _ => {},
            }
            proof {
                assert(members@[i as int].0 == before[i as int].0);
                assert forall|k: int| 0 <= k < members.len() && k != i implies members@[k]
                    == before[k] by {}
                assert(members_view(members@) =~= retype(m));
            }
        },
        None => {},
    }
}

/// Cleans an object's members, in place.
pub fn clean_object_in_place(members: &mut Vec<(String, Json)>)
    ensures
        members_view(final(members)@) == clean_object(members_view(old(members)@)),
    decreases members_view(old(members)@), 1nat,
{
    let ghost orig = members_view(members@);
    let notes = collect_notes(members);
    strip_keys(members);
    let ghost kept = members_view(members@);
    proof {
        lemma_without_all_members(orig, removed_keys());
        lemma_clean_without_all(orig, removed_keys());
    }
    let mut i: usize = 0;
    while i < members.len()
        invariant
            i <= members.len(),
            members.len() == kept.len(),
            orig == members_view(old(members)@),
            forall|k: int| 0 <= k < kept.len() ==> orig.contains(#[trigger] kept[k]),
            forall|k: int| i <= k < members.len() ==> members_view(members@)[k] == kept[k],
            forall|k: int|
                0 <= k < i ==> members_view(members@)[k] == (kept[k].0, clean_value(kept[k].1)),
        decreases members.len() - i,
    {
        let ghost before = members@;
        proof {
            let j = orig.index_of(kept[i as int]);
            vstd::seq::axiom_seq_index_decreases(orig, j);
            assert(members_view(before)[i as int] == kept[i as int]);
        }
        clean_json_schema_recursive(&mut members[i].1);
        proof {
            assert(members@[i as int].0 == before[i as int].0);
            assert forall|k: int| 0 <= k < members.len() && k != i implies members@[k]
                == before[k] by {}
            assert(members_view(members@)[i as int] == (
                kept[i as int].0,
                clean_value(kept[i as int].1),
            ));
            assert forall|k: int| 0 <= k < i implies members_view(members@)[k] == (
                kept[k].0,
                clean_value(kept[k].1),
            ) by {
                assert(members_view(members@)[k] == members_view(before)[k]);
            }
        }
        i += 1;
    }
    proof {
        assert(members_view(members@) =~= clean_members(kept));
    }
    annotate_in_place(members, &notes);
    retype_in_place(members);
}

/// Cleans each value of a list, in place.
pub fn clean_items_in_place(items: &mut Vec<Json>)
    ensures
        JsonView::Array(items_view(final(items)@)) == clean_value(
            JsonView::Array(items_view(old(items)@)),
        ),
    decreases items_view(old(items)@), 0nat,
{
    let ghost orig = items_view(items@);
    let mut i: usize = 0;
    while i < items.len()
        invariant
            i <= items.len(),
            items.len() == orig.len(),
            orig == items_view(old(items)@),
            forall|k: int| i <= k < items.len() ==> items[k]@ == orig[k],
            forall|k: int| 0 <= k < i ==> items[k]@ == clean_value(orig[k]),
        decreases items.len() - i,
    {
        proof {
            vstd::seq::axiom_seq_index_decreases(orig, i as int);
        }
        clean_json_schema_recursive(&mut items[i]);
        i += 1;
    }
    proof {
        assert(items_view(items@) =~= clean_value(JsonView::Array(orig))->Array_0);
    }
}

/// Cleans a value and everything below it, in place.
pub fn clean_json_schema_recursive(value: &mut Json)
    ensures
        final(value)@ == clean_value(old(value)@),
    decreases old(value)@, 2nat,
{
    match value {
        Json::Object(members) => {
            proof {
                lemma_view_object(*members);
            }
            clean_object_in_place(members);
            proof {
                lemma_view_object(*members);
            }
        },
        Json::Array(items) => {
            proof {
                lemma_view_array(*items);
            }
            clean_items_in_place(items);
            proof {
                lemma_view_array(*items);
            }
        },
        _ => {},
    }
}

} // verus!
