//! The whole transform: flatten the references, then clean.

use crate::clean::{clean_json_schema_recursive, clean_value};
use crate::flatten::{definitions_key, defs_key, flatten_object, flatten_refs, members_of, table_of};
use crate::json::{
    lemma_view_object, lemma_without_other, members_view, option_view, remove_key, without, Json,
    JsonView,
};
use vstd::prelude::*;
use vstd::string::*;

verus! {

/// A root with its references flattened. An object loses its `$defs` and
/// `definitions`; where those declare at least one definition, the
/// references in what is left are flattened against them, nesting as deep
/// as there are definitions. Any other value is unchanged.
pub open spec fn flatten_root(v: JsonView) -> JsonView {
    match v {
        JsonView::Object(m) => {
            let rest = without(without(m, defs_key()), definitions_key());
            let table = table_of(m);
            if table.len() > 0 {
                JsonView::Object(flatten_object(rest, table, table.len()))
            } else {
                JsonView::Object(rest)
            }
        },
        other => other,
    }
}

/// The normalized form of a schema.
pub open spec fn normalized(v: JsonView) -> JsonView {
    clean_value(flatten_root(v))
}

/// The members of a removed definitions value, where it is an object.
fn into_members(v: Option<Json>) -> (r: Vec<(String, Json)>)
    ensures
        members_view(r@) == members_of(option_view(v)),
{
    match v {
        Some(Json::Object(members)) => {
            proof {
                lemma_view_object(members);
            }
            members
        },
        _ => {
            let empty: Vec<(String, Json)> = Vec::new();
            proof {
                assert(members_view(empty@) =~= Seq::empty());
            }
            empty
        },
    }
}

/// Takes `$defs` and `definitions` out of a root object and hands back the
/// definition table that they declare.
pub fn take_definitions(members: &mut Vec<(String, Json)>) -> (table: Vec<(String, Json)>)
    ensures
        members_view(final(members)@) == without(
            without(members_view(old(members)@), defs_key()),
            definitions_key(),
        ),
        members_view(table@) == table_of(members_view(old(members)@)),
{
    let ghost m = members_view(members@);
    let defs_name = String::from_str("$defs");
    let definitions_name = String::from_str("definitions");
    proof {
        reveal_strlit("$defs");
        reveal_strlit("definitions");
        assert(defs_key().len() != definitions_key().len());
        lemma_without_other(m, defs_key(), definitions_key());
    }
    let mut defs = into_members(remove_key(members, &defs_name));
    let mut table = into_members(remove_key(members, &definitions_name));
    let ghost first = table@;
    let ghost second = defs@;
    table.append(&mut defs);
    proof {
        assert(members_view(table@) =~= members_view(first) + members_view(second));
    }
    table
}

/// Normalizes a schema in place: flattens every `$ref` against the
/// definitions that the root declares, then cleans the whole tree.
pub fn clean_json_schema(value: &mut Json)
    ensures
        final(value)@ == normalized(old(value)@),
{
    match value {
        Json::Object(members) => {
            proof {
                lemma_view_object(*members);
            }
            let table = take_definitions(members);
            if !table.is_empty() {
                flatten_refs(members, &table, table.len());
            }
            proof {
                lemma_view_object(*members);
            }
        },
        _ => {},
    }
    clean_json_schema_recursive(value);
}

} // verus!
