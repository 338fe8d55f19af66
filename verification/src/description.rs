//! Constraint migration: what a cleaned object's description holds of the
//! validation keywords that the object had.

use crate::clean::{
    annotate, clean_members, clean_object, clean_value, constraint_fields, description_key, join,
    lemma_clean_members_position, lemma_retype_shape, notes, removed_keys, retype, suffix, type_key,
    without_all,
};
use crate::json::{
    get, has_key, lemma_position, lemma_position_push, lemma_update_position,
    lemma_without_other, position, JsonView, Members,
};
use crate::laws::{lemma_clean_keyword_free, lemma_keywords};
use crate::text::json_text;
use vstd::prelude::*;

verus! {

/// Whether `part` stands in `text` at the offset `at`.
pub open spec fn occurs_at(part: Seq<char>, text: Seq<char>, at: int) -> bool {
    0 <= at && at + part.len() <= text.len() && text.subrange(at, at + part.len()) == part
}

/// Whether `part` is a substring of `text`.
pub open spec fn occurs_in(part: Seq<char>, text: Seq<char>) -> bool {
    exists|at: int| occurs_at(part, text, at)
}

/// A substring of `text` is one of `before + text + after`.
pub proof fn lemma_occurs_within(
    part: Seq<char>,
    before: Seq<char>,
    text: Seq<char>,
    after: Seq<char>,
)
    requires
        occurs_in(part, text),
    ensures
        occurs_in(part, before + text + after),
{
    let at = choose|at: int| occurs_at(part, text, at);
    let whole = before + text + after;
    assert(whole.subrange(before.len() + at, before.len() + at + part.len()) =~= text.subrange(
        at,
        at + part.len(),
    ));
    assert(occurs_at(part, whole, before.len() + at));
}

/// Each part is a substring of the joined text.
pub proof fn lemma_join_occurs(parts: Seq<Seq<char>>, sep: Seq<char>, k: int)
    requires
        0 <= k < parts.len(),
    ensures
        occurs_in(parts[k], join(parts, sep)),
    decreases parts.len(),
{
    let empty = Seq::<char>::empty();
    if parts.len() == 1 {
        assert(parts[0].subrange(0, parts[0].len() as int) =~= parts[0]);
        assert(occurs_at(parts[0], join(parts, sep), 0));
    } else {
        let rest = parts.drop_last();
        if k < rest.len() {
            lemma_join_occurs(rest, sep, k);
            assert(rest[k] == parts[k]);
            lemma_occurs_within(parts[k], empty, join(rest, sep), sep + parts.last());
            assert(empty + join(rest, sep) + (sep + parts.last()) =~= join(parts, sep));
        } else {
            assert(parts.last().subrange(0, parts.last().len() as int) =~= parts.last());
            assert(occurs_at(parts.last(), parts.last(), 0));
            lemma_occurs_within(parts.last(), join(rest, sep) + sep, parts.last(), empty);
            assert(join(rest, sep) + sep + parts.last() + empty =~= join(parts, sep));
        }
    }
}

/// The notes of an object hold the note of each validation keyword that it
/// has.
pub proof fn lemma_notes_contain(m: Members, fields: Seq<(Seq<char>, Seq<char>)>, k: int)
    requires
        0 <= k < fields.len(),
        has_key(m, fields[k].0),
    ensures
        notes(m, fields).contains(fields[k].1 + ": "@ + json_text(get(m, fields[k].0)->0)),
    decreases fields.len(),
{
    let rest = fields.drop_last();
    let before = notes(m, rest);
    let note = fields[k].1 + ": "@ + json_text(get(m, fields[k].0)->0);
    if k == fields.len() - 1 {
        assert(notes(m, fields)[before.len() as int] == note);
    } else {
        lemma_notes_contain(m, rest, k);
        assert(rest[k] == fields[k]);
        let i = before.index_of(note);
        assert(notes(m, fields)[i] == note);
    }
}

/// Removing keys leaves the lookups of every other key as they were.
pub proof fn lemma_without_all_other(m: Members, keys: Seq<Seq<char>>, other: Seq<char>)
    requires
        forall|k: int| 0 <= k < keys.len() ==> #[trigger] keys[k] != other,
    ensures
        get(without_all(m, keys), other) == get(m, other),
        has_key(without_all(m, keys), other) == has_key(m, other),
    decreases keys.len(),
{
    if keys.len() > 0 {
        let rest = keys.drop_last();
        assert forall|k: int| 0 <= k < rest.len() implies #[trigger] rest[k] != other by {
            assert(rest[k] == keys[k]);
        }
        lemma_without_all_other(m, rest, other);
        assert(keys.last() == keys[keys.len() - 1]);
        lemma_without_other(without_all(m, rest), keys.last(), other);
    }
}

/// The description of a cleaned object that had validation keywords: the
/// string that it had, followed by the suffix of its notes; the suffix alone
/// where it had no description; a cleaned description where that was no
/// string.
pub proof fn lemma_clean_description(m: Members)
    requires
        notes(m, constraint_fields()).len() > 0,
    ensures
        get(clean_object(m), description_key()) == Some(
            match get(m, description_key()) {
                Some(JsonView::String(s)) => JsonView::String(
                    s + suffix(notes(m, constraint_fields())),
                ),
                Some(other) => clean_value(other),
                None => JsonView::String(suffix(notes(m, constraint_fields()))),
            },
        ),
{
    let d = description_key();
    let ns = notes(m, constraint_fields());
    let cm = clean_members(m);
    let w = without_all(cm, removed_keys());
    let a = annotate(w, ns);
    let c = retype(a);
    assert(clean_object(m) == c);
    lemma_keywords();
    lemma_position(m, d);
    lemma_clean_members_position(m, d);
    lemma_without_all_other(cm, removed_keys(), d);
    lemma_position(w, d);
    lemma_retype_shape(a);
    lemma_position(a, d);
    lemma_position(a, type_key());
    assert(d != type_key()) by {
        reveal_strlit("description");
        reveal_strlit("type");
        assert(d.len() != type_key().len());
    }
    match get(w, d) {
        Some(JsonView::String(s)) => {
            lemma_update_position(w, position(w, d), JsonView::String(s + suffix(ns)), d);
        },
        Some(_) => {},
        None => {
            lemma_position_push(w, (d, JsonView::String(suffix(ns))), d);
        },
    }
}

/// A validation keyword of an object is gone from the cleaned object, and
/// its note is a substring of the description, where the object had a
/// string for a description or none.
pub proof fn lemma_constraint_migrates(m: Members, k: int)
    requires
        0 <= k < constraint_fields().len(),
        has_key(m, constraint_fields()[k].0),
        !has_key(m, description_key()) || get(m, description_key())->0 is String,
    ensures
        !has_key(clean_object(m), constraint_fields()[k].0),
        get(clean_object(m), description_key()) is Some,
        get(clean_object(m), description_key())->0 is String,
        occurs_in(
            constraint_fields()[k].1 + ": "@ + json_text(get(m, constraint_fields()[k].0)->0),
            get(clean_object(m), description_key())->0->String_0,
        ),
{
    let fields = constraint_fields();
    let ns = notes(m, fields);
    let note = fields[k].1 + ": "@ + json_text(get(m, fields[k].0)->0);
    lemma_notes_contain(m, fields, k);
    let i = ns.index_of(note);
    lemma_join_occurs(ns, ", "@, i);
    lemma_clean_description(m);
    let before = match get(m, description_key()) {
        Some(JsonView::String(s)) => s,
        _ => Seq::<char>::empty(),
    };
    lemma_occurs_within(note, before + " [Validation: "@, join(ns, ", "@), "]"@);
    assert(before + " [Validation: "@ + join(ns, ", "@) + "]"@ =~= before + suffix(ns));
    assert(Seq::<char>::empty() + suffix(ns) =~= suffix(ns));
    lemma_keywords();
    lemma_clean_keyword_free(JsonView::Object(m));
    assert(clean_value(JsonView::Object(m)) == JsonView::Object(clean_object(m)));
    assert(!has_key(clean_object(m), removed_keys()[k]));
}

} // verus!
